//! The computing side of the three operations: the texts they build
//! and the local rules they apply.  The surrounding binary only moves
//! bytes over HTTP and through the filesystem.

use vstd::prelude::*;
use crate::digits::{int_text, spec_digits, spec_int_text, decimal_text};
use crate::entities::{EntryModel, FileEntity};
use crate::strtext::push_char;

verus! {

/// The longest suffix of `p` without a path separator.
pub open spec fn suffix_after_slash(p: Seq<char>) -> Seq<char>
    decreases p.len(),
{
    if p.len() == 0 {
        Seq::empty()
    } else if p[p.len() - 1] == '/' {
        Seq::empty()
    } else {
        suffix_after_slash(p.drop_last()) + seq![p[p.len() - 1]]
    }
}

/// The file name a local path designates: what stands after its last
/// separator.  A path that ends in a separator, or whose last segment
/// is `.` or `..`, designates no file.
pub open spec fn spec_basename(p: Seq<char>) -> Option<Seq<char>> {
    let s = suffix_after_slash(p);
    if s.len() == 0 || s == seq!['.'] || s == seq!['.', '.'] {
        None
    } else {
        Some(s)
    }
}

/// A name under which a downloaded file may be created: non-empty,
/// without a separator, and not a dot segment, so it stays inside the
/// working directory.
pub open spec fn spec_safe_name(n: Seq<char>) -> bool {
    &&& n.len() > 0
    &&& forall|i: int| 0 <= i < n.len() ==> n[i] != '/'
    &&& n != seq!['.']
    &&& n != seq!['.', '.']
}

/// A file name extracted from a path is always safe to create a file
/// under.
pub proof fn lemma_basename_safe(p: Seq<char>)
    ensures
        spec_basename(p) matches Some(s) ==> spec_safe_name(s),
{
    lemma_suffix_no_slash(p);
}

proof fn lemma_suffix_no_slash(p: Seq<char>)
    ensures
        forall|i: int|
            0 <= i < suffix_after_slash(p).len() ==> #[trigger] suffix_after_slash(p)[i] != '/',
    decreases p.len(),
{
    if p.len() > 0 && p[p.len() - 1] != '/' {
        lemma_suffix_no_slash(p.drop_last());
        let t = suffix_after_slash(p.drop_last());
        let s = suffix_after_slash(p);
        assert(s == t + seq![p[p.len() - 1]]);
        assert forall|i: int| 0 <= i < s.len() implies #[trigger] s[i] != '/' by {
            if i < t.len() {
                assert(s[i] == t[i]);
            } else {
                assert(s[i] == p[p.len() - 1]);
            }
        }
    }
}

fn suffix_scan(p: &str, j: usize) -> (r: String)
    requires
        j <= p@.len(),
    ensures
        r@ == suffix_after_slash(p@.take(j as int)),
    decreases j,
{
    if j == 0 {
        let r = String::new();
        proof {
            assert(p@.take(0) =~= Seq::<char>::empty());
        }
        r
    } else {
        let c = p.get_char(j - 1);
        assert(p@.take(j as int)[j - 1] == p@[j - 1]);
        if c == '/' {
            String::new()
        } else {
            let mut s = suffix_scan(p, j - 1);
            push_char(&mut s, c);
            proof {
                assert(p@.take(j as int).drop_last() =~= p@.take(j - 1));
                assert(s@ =~= suffix_after_slash(p@.take(j - 1)) + seq![p@[j - 1]]);
            }
            s
        }
    }
}

/// The file name to upload under, derived from the local path exactly
/// as `spec_basename` says; nothing when the path designates no file.
pub fn upload_name(path: &str) -> (r: Option<String>)
    ensures
        match r {
            Some(s) => spec_basename(path@) == Some(s@),
            None => spec_basename(path@) is None,
        },
{
    let n = path.unicode_len();
    let s = suffix_scan(path, n);
    proof {
        assert(path@.take(n as int) =~= path@);
    }
    let m = s.as_str().unicode_len();
    if m == 0 {
        return None;
    }
    if m == 1 && s.as_str().get_char(0) == '.' {
        proof {
            assert(s@ =~= seq!['.']);
        }
        return None;
    }
    if m == 2 && s.as_str().get_char(0) == '.' && s.as_str().get_char(1) == '.' {
        proof {
            assert(s@ =~= seq!['.', '.']);
        }
        return None;
    }
    proof {
        if s@ == seq!['.'] {
            assert(s@.len() == 1);
            assert(s@[0] == '.');
            assert(false);
        }
        if s@ == seq!['.', '.'] {
            assert(s@.len() == 2);
            assert(s@[0] == '.');
            assert(s@[1] == '.');
            assert(false);
        }
    }
    Some(s)
}

/// Checks a server-provided name against `spec_safe_name` before it is
/// used as a local file name.
pub fn name_is_safe(name: &str) -> (r: bool)
    ensures
        r == spec_safe_name(name@),
{
    let n = name.unicode_len();
    if n == 0 {
        return false;
    }
    if n == 1 && name.get_char(0) == '.' {
        proof {
            assert(name@ =~= seq!['.']);
        }
        return false;
    }
    if n == 2 && name.get_char(0) == '.' && name.get_char(1) == '.' {
        proof {
            assert(name@ =~= seq!['.', '.']);
        }
        return false;
    }
    let mut i: usize = 0;
    while i < n
        invariant
            i <= n,
            n == name@.len(),
            forall|k: int| 0 <= k < i ==> name@[k] != '/',
        decreases n - i,
    {
        if name.get_char(i) == '/' {
            return false;
        }
        i = i + 1;
    }
    proof {
        if name@ == seq!['.'] {
            assert(name@.len() == 1);
            assert(name@[0] == '.');
            assert(false);
        }
        if name@ == seq!['.', '.'] {
            assert(name@.len() == 2);
            assert(name@[0] == '.');
            assert(name@[1] == '.');
            assert(false);
        }
    }
    true
}

/// The console line the listing operation prints for one entry.
pub open spec fn spec_list_line(e: EntryModel) -> Seq<char> {
    spec_int_text(e.id) + (" - ")@ + e.name
}

/// Formats one listing entry as `<id> - <name>`.
pub fn list_line(e: &FileEntity) -> (r: String)
    ensures
        r@ == spec_list_line(e@),
{
    let mut s = int_text(e.id);
    s.append(" - ");
    s.append(e.name.as_str());
    s
}

/// Formats every entry of a listing, keeping the order the server
/// gave.
pub fn list_lines(entries: &Vec<FileEntity>) -> (r: Vec<String>)
    ensures
        r@.len() == entries@.len(),
        forall|k: int| 0 <= k < entries@.len() ==> (#[trigger] r@[k])@ == spec_list_line(
            entries@[k]@,
        ),
{
    let mut out: Vec<String> = Vec::new();
    let n = entries.len();
    let mut i: usize = 0;
    while i < n
        invariant
            i <= n,
            n == entries@.len(),
            out@.len() == i,
            forall|k: int| 0 <= k < i ==> (#[trigger] out@[k])@ == spec_list_line(entries@[k]@),
        decreases n - i,
    {
        let line = list_line(&entries[i]);
        out.push(line);
        i = i + 1;
    }
    out
}

/// The listing endpoint.
pub fn list_url() -> (r: String)
    ensures
        r@ == ("http://localhost:3000/list")@,
{
    String::from_str("http://localhost:3000/list")
}

/// The upload endpoint.
pub fn upload_url() -> (r: String)
    ensures
        r@ == ("http://localhost:3000/upload")@,
{
    String::from_str("http://localhost:3000/upload")
}

/// The download endpoint for one identifier.
pub open spec fn spec_download_url(id: int) -> Seq<char> {
    ("http://localhost:3000/download/")@ + spec_int_text(id)
}

/// Builds the download endpoint URL with the identifier embedded.
pub fn download_url(id: i32) -> (r: String)
    ensures
        r@ == spec_download_url(id as int),
{
    let mut s = String::from_str("http://localhost:3000/download/");
    let d = int_text(id);
    s.append(d.as_str());
    s
}

/// The line the upload operation prints on any server response: the
/// status code behind `ok`, whatever the code says.
pub open spec fn spec_upload_report(status: int) -> Seq<char> {
    ("ok ")@ + spec_digits(status as nat)
}

/// Formats the upload report for a response status code.
pub fn upload_report(status: u16) -> (r: String)
    ensures
        r@ == spec_upload_report(status as int),
{
    let mut s = String::from_str("ok ");
    let d = decimal_text(status as u64);
    s.append(d.as_str());
    s
}

} // verus!

