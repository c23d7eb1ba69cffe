//! The wire codec: the two JSON shapes the server speaks, written and
//! read character by character.
//!
//! The accepted text is the compact form with the fields in their wire
//! order — `{"name":...,"content":[...]}` for an envelope and
//! `[{"id":...,"name":...},...]` for a listing — which is exactly what
//! the canonical encoder emits.  Byte values travel as decimal
//! integers, so any byte sequence survives the textual transport.

use vstd::prelude::*;
use crate::digits::{
    is_digit, parse_int, parse_number, scan_int, scan_number, spec_digits, spec_int_text,
    decimal_text, lemma_parse_number_of_digits, lemma_parse_int_of_text,
    lemma_parse_int_advances, lemma_spec_digits_read_back,
};
use crate::entities::{DecodeError, EntryModel, EnvelopeModel, FileContent, FileEntity};
use crate::strtext::{
    parse_quoted, quoted_text, scan_quoted, spec_quoted, lemma_parse_quoted_of_text,
};

verus! {

pub open spec fn key_name() -> Seq<char> {
    seq!['{', '"', 'n', 'a', 'm', 'e', '"', ':']
}

pub open spec fn key_content() -> Seq<char> {
    seq![',', '"', 'c', 'o', 'n', 't', 'e', 'n', 't', '"', ':']
}

pub open spec fn key_id() -> Seq<char> {
    seq!['{', '"', 'i', 'd', '"', ':']
}

pub open spec fn key_name_mid() -> Seq<char> {
    seq![',', '"', 'n', 'a', 'm', 'e', '"', ':']
}

/// Consumes the exact text `pat` from the front of `s`.
pub open spec fn match_lit(s: Seq<char>, pat: Seq<char>) -> Option<Seq<char>> {
    if pat.len() <= s.len() && s.take(pat.len() as int) == pat {
        Some(s.skip(pat.len() as int))
    } else {
        None
    }
}

/// Checks that the text `pat` stands at character `i` of `s`, exactly
/// as `match_lit` reads the text from `i` on; returns the index just
/// past it.
fn scan_lit(s: &str, i: usize, pat: &str) -> (r: Option<usize>)
    requires
        i <= s@.len(),
    ensures
        match r {
            Some(j) => {
                &&& i <= j <= s@.len()
                &&& j == i + pat@.len()
                &&& match_lit(s@.skip(i as int), pat@) == Some(s@.skip(j as int))
            },
            None => match_lit(s@.skip(i as int), pat@) is None,
        },
{
    let ghost sk = s@.skip(i as int);
    let n = s.unicode_len();
    let m = pat.unicode_len();
    if n - i < m {
        assert(sk.len() < pat@.len());
        return None;
    }
    let mut k: usize = 0;
    while k < m
        invariant
            k <= m,
            i + m <= n,
            n == s@.len(),
            m == pat@.len(),
            sk == s@.skip(i as int),
            forall|l: int| 0 <= l < k ==> sk[l] == pat@[l],
        decreases m - k,
    {
        let cs = s.get_char(i + k);
        let cp = pat.get_char(k);
        assert(sk[k as int] == s@[i + k]);
        if cs != cp {
            proof {
                assert(sk.take(m as int)[k as int] != pat@[k as int]);
                assert(sk.take(m as int) != pat@);
            }
            return None;
        }
        k = k + 1;
    }
    proof {
        assert(sk.take(m as int) =~= pat@);
        assert(sk.skip(m as int) =~= s@.skip(i + m));
    }
    Some(i + m)
}

/// Wire text of a byte sequence between the array brackets: decimal
/// values separated by commas.
pub open spec fn spec_bytes_items(b: Seq<u8>) -> Seq<char>
    decreases b.len(),
{
    if b.len() == 0 {
        Seq::empty()
    } else if b.len() == 1 {
        spec_digits(b[0] as nat)
    } else {
        spec_digits(b[0] as nat) + seq![','] + spec_bytes_items(b.skip(1))
    }
}

/// Wire text of a byte sequence: the bracketed array.
pub open spec fn spec_bytes_text(b: Seq<u8>) -> Seq<char> {
    seq!['['] + spec_bytes_items(b) + seq![']']
}

/// Reads array items from the first expected number on, consuming the
/// closing bracket: the bytes read and the text after the bracket.  A
/// value above 255 is no byte and reads as nothing.
pub open spec fn parse_byte_items(s: Seq<char>) -> Option<(Seq<u8>, Seq<char>)>
    decreases s.len(),
    via parse_byte_items_dec
{
    match parse_number(s) {
        None => None,
        Some(p) => if p.0 > 255 {
            None
        } else if p.1.len() > 0 && p.1[0] == ',' {
            match parse_byte_items(p.1.skip(1)) {
                Some(q) => Some((seq![p.0 as u8] + q.0, q.1)),
                None => None,
            }
        } else if p.1.len() > 0 && p.1[0] == ']' {
            Some((seq![p.0 as u8], p.1.skip(1)))
        } else {
            None
        },
    }
}

#[via_fn]
proof fn parse_byte_items_dec(s: Seq<char>) {
    lemma_parse_number_advances(s);
}

proof fn lemma_parse_number_advances(s: Seq<char>)
    ensures
        parse_number(s) matches Some(p) ==> p.1.len() < s.len(),
{
    crate::digits::lemma_run_len_le(s);
}

/// Reads a byte array from the front of `s`.
pub open spec fn parse_bytes(s: Seq<char>) -> Option<(Seq<u8>, Seq<char>)> {
    if s.len() >= 2 && s[0] == '[' && s[1] == ']' {
        Some((Seq::empty(), s.skip(2)))
    } else if s.len() >= 1 && s[0] == '[' {
        parse_byte_items(s.skip(1))
    } else {
        None
    }
}

/// Writes a byte sequence in its wire form.
pub fn bytes_text(v: &Vec<u8>) -> (r: String)
    ensures
        r@ == spec_bytes_text(v@),
{
    let mut out = String::new();
    crate::strtext::push_char(&mut out, '[');
    if v.len() > 0 {
        let items = bytes_items_text(v, 0);
        out.append(items.as_str());
        proof {
            assert(v@.skip(0) =~= v@);
        }
    }
    crate::strtext::push_char(&mut out, ']');
    proof {
        assert(out@ =~= spec_bytes_text(v@));
    }
    out
}

fn bytes_items_text(v: &Vec<u8>, i: usize) -> (r: String)
    requires
        i < v@.len(),
    ensures
        r@ == spec_bytes_items(v@.skip(i as int)),
    decreases v@.len() - i,
{
    let vn = v.len();
    let mut out = decimal_text(v[i] as u64);
    proof {
        assert(v@.skip(i as int)[0] == v@[i as int]);
    }
    if i + 1 < vn {
        crate::strtext::push_char(&mut out, ',');
        let tail = bytes_items_text(v, i + 1);
        out.append(tail.as_str());
        proof {
            assert(v@.skip(i as int).skip(1) =~= v@.skip(i + 1));
            assert(out@ =~= spec_bytes_items(v@.skip(i as int)));
        }
    } else {
        proof {
            assert(v@.skip(i as int).len() == 1);
        }
    }
    out
}

/// Reads the byte array that starts at character `i` of `s`, exactly
/// as `parse_bytes` reads the text from `i` on.
fn scan_bytes(s: &str, i: usize) -> (r: Option<(Vec<u8>, usize)>)
    requires
        i <= s@.len(),
    ensures
        match r {
            Some(p) => {
                &&& p.1 <= s@.len()
                &&& parse_bytes(s@.skip(i as int)) == Some((p.0@, s@.skip(p.1 as int)))
            },
            None => parse_bytes(s@.skip(i as int)) is None,
        },
{
    let ghost sk = s@.skip(i as int);
    let n = s.unicode_len();
    if i < n && s.get_char(i) == '[' {
        assert(sk[0] == s@[i as int]);
        if i + 1 < n && s.get_char(i + 1) == ']' {
            assert(sk[1] == s@[i + 1]);
            proof {
                assert(sk.skip(2) =~= s@.skip(i + 2));
            }
            Some((Vec::new(), i + 2))
        } else {
            proof {
                if i + 1 < n {
                    assert(sk[1] == s@[i + 1]);
                }
                assert(!(sk.len() >= 2 && sk[1] == ']'));
                assert(sk.skip(1) =~= s@.skip(i + 1));
            }
            scan_byte_items(s, i + 1)
        }
    } else {
        proof {
            if i < n {
                assert(sk[0] == s@[i as int]);
            }
        }
        None
    }
}

fn scan_byte_items(s: &str, i: usize) -> (r: Option<(Vec<u8>, usize)>)
    requires
        i <= s@.len(),
    ensures
        match r {
            Some(p) => {
                &&& p.1 <= s@.len()
                &&& parse_byte_items(s@.skip(i as int)) == Some((p.0@, s@.skip(p.1 as int)))
            },
            None => parse_byte_items(s@.skip(i as int)) is None,
        },
    decreases s@.len() - i,
{
    let ghost sk = s@.skip(i as int);
    let n = s.unicode_len();
    match scan_number(s, i) {
        None => None,
        Some((v, j)) => {
            if v > 255 {
                return None;
            }
            if j < n {
                let c = s.get_char(j);
                assert(s@.skip(j as int)[0] == s@[j as int]);
                if c == ',' {
                    proof {
                        assert(s@.skip(j as int).skip(1) =~= s@.skip(j + 1));
                    }
                    match scan_byte_items(s, j + 1) {
                        Some((t, k)) => {
                            let mut out: Vec<u8> = Vec::new();
                            out.push(v as u8);
                            let mut t = t;
                            let ghost t0 = t@;
                            out.append(&mut t);
                            proof {
                                assert(out@ =~= seq![v as u8] + t0);
                            }
                            Some((out, k))
                        },
                        None => None,
                    }
                } else if c == ']' {
                    let mut out: Vec<u8> = Vec::new();
                    out.push(v as u8);
                    proof {
                        assert(out@ =~= seq![v as u8]);
                        assert(s@.skip(j as int).skip(1) =~= s@.skip(j + 1));
                    }
                    Some((out, j + 1))
                } else {
                    None
                }
            } else {
                assert(s@.skip(j as int).len() == 0);
                None
            }
        },
    }
}

/// Reading the wire text of a byte sequence back, with anything after
/// the closing bracket, yields the bytes exactly.
pub proof fn lemma_parse_bytes_of_text(b: Seq<u8>, rest: Seq<char>)
    ensures
        parse_bytes(spec_bytes_text(b) + rest) == Some((b, rest)),
{
    let s = spec_bytes_text(b) + rest;
    assert(s[0] == '[');
    if b.len() == 0 {
        assert(spec_bytes_items(b) =~= Seq::<char>::empty());
        assert(s =~= seq!['[', ']'] + rest);
        assert(s[1] == ']');
        assert(s.skip(2) =~= rest);
    } else {
        lemma_spec_digits_read_back(b[0] as nat);
        assert(s.skip(1) =~= spec_bytes_items(b) + seq![']'] + rest);
        assert(s[1] == (spec_bytes_items(b) + seq![']'] + rest)[0]);
        assert(spec_bytes_items(b)[0] == spec_digits(b[0] as nat)[0]);
        assert(is_digit(s[1]));
        assert(s[1] != ']');
        lemma_parse_byte_items_of_text(b, rest);
    }
}

proof fn lemma_parse_byte_items_of_text(b: Seq<u8>, rest: Seq<char>)
    requires
        b.len() >= 1,
    ensures
        parse_byte_items(spec_bytes_items(b) + seq![']'] + rest) == Some((b, rest)),
    decreases b.len(),
{
    let s = spec_bytes_items(b) + seq![']'] + rest;
    let v = b[0] as nat;
    if b.len() == 1 {
        assert(s =~= spec_digits(v) + (seq![']'] + rest));
        lemma_parse_number_of_digits(v, seq![']'] + rest);
        assert((seq![']'] + rest)[0] == ']');
        assert((seq![']'] + rest).skip(1) =~= rest);
        assert(seq![b[0]] =~= b);
    } else {
        let tail_text = spec_bytes_items(b.skip(1)) + seq![']'] + rest;
        assert(s =~= spec_digits(v) + (seq![','] + tail_text));
        lemma_parse_number_of_digits(v, seq![','] + tail_text);
        assert((seq![','] + tail_text)[0] == ',');
        assert((seq![','] + tail_text).skip(1) =~= tail_text);
        lemma_parse_byte_items_of_text(b.skip(1), rest);
        assert(seq![b[0]] + b.skip(1) =~= b);
    }
}

/// Wire text of a file-content envelope.
pub open spec fn spec_encode_content(e: EnvelopeModel) -> Seq<char> {
    key_name() + spec_quoted(e.name) + key_content() + spec_bytes_text(e.content) + seq!['}']
}

/// Reads a whole envelope: the text must be exactly one envelope, with
/// nothing before or after it.
pub open spec fn parse_content_text(s: Seq<char>) -> Option<EnvelopeModel> {
    match match_lit(s, key_name()) {
        None => None,
        Some(r1) => match parse_quoted(r1) {
            None => None,
            Some(p) => match match_lit(p.1, key_content()) {
                None => None,
                Some(r3) => match parse_bytes(r3) {
                    None => None,
                    Some(q) => if q.1 == seq!['}'] {
                        Some(EnvelopeModel { name: p.0, content: q.0 })
                    } else {
                        None
                    },
                },
            },
        },
    }
}

/// Writes an envelope in its wire form.
pub fn encode_content(e: &FileContent) -> (r: String)
    ensures
        r@ == spec_encode_content(e@),
{
    let mut out = String::from_str("{\"name\":");
    proof {
        reveal_strlit("{\"name\":");
        assert(out@ =~= key_name());
    }
    let q = quoted_text(e.name.as_str());
    out.append(q.as_str());
    out.append(",\"content\":");
    proof {
        reveal_strlit(",\"content\":");
        assert(out@ =~= key_name() + spec_quoted(e.name@) + key_content());
    }
    let b = bytes_text(&e.content);
    out.append(b.as_str());
    out.append("}");
    proof {
        reveal_strlit("}");
        assert(out@ =~= spec_encode_content(e@));
    }
    out
}

/// Reads an envelope out of a server response body.  The result is
/// exactly what `parse_content_text` reads from the text: decoding
/// succeeds if and only if the body is well-formed wire text for an
/// envelope, and then returns its name and bytes.
pub fn decode_content(text: &str) -> (r: Result<FileContent, DecodeError>)
    ensures
        match r {
            Ok(e) => parse_content_text(text@) == Some(e@),
            Err(_) => parse_content_text(text@) is None,
        },
{
    proof {
        assert(text@.skip(0) =~= text@);
        reveal_strlit("{\"name\":");
        reveal_strlit(",\"content\":");
    }
    let i1 = match scan_lit(text, 0, "{\"name\":") {
        Some(j) => j,
        None => {
            proof {
                assert("{\"name\":"@ =~= key_name());
            }
            return Err(DecodeError);
        },
    };
    proof {
        assert("{\"name\":"@ =~= key_name());
    }
    let (name, i2) = match scan_quoted(text, i1) {
        Some(p) => p,
        None => {
            return Err(DecodeError);
        },
    };
    let i3 = match scan_lit(text, i2, ",\"content\":") {
        Some(j) => j,
        None => {
            proof {
                assert(",\"content\":"@ =~= key_content());
            }
            return Err(DecodeError);
        },
    };
    proof {
        assert(",\"content\":"@ =~= key_content());
    }
    let (content, i4) = match scan_bytes(text, i3) {
        Some(p) => p,
        None => {
            return Err(DecodeError);
        },
    };
    let n = text.unicode_len();
    if i4 < n && i4 + 1 == n && text.get_char(i4) == '}' {
        proof {
            assert(text@.skip(i4 as int)[0] == text@[i4 as int]);
            assert(text@.skip(i4 as int) =~= seq!['}']);
        }
        Ok(FileContent::new(name, content))
    } else {
        proof {
            let rest = text@.skip(i4 as int);
            assert(rest.len() == text@.len() - i4);
            if rest == seq!['}'] {
                assert(rest.len() == 1);
                assert(rest[0] == text@[i4 as int]);
                assert(rest[0] == '}');
                assert(false);
            }
        }
        Err(DecodeError)
    }
}

/// Wire text of one listing entry.
pub open spec fn spec_entry_text(e: EntryModel) -> Seq<char> {
    key_id() + spec_int_text(e.id) + key_name_mid() + spec_quoted(e.name) + seq!['}']
}

/// Wire text of the entries between the listing brackets.
pub open spec fn spec_listing_items(es: Seq<EntryModel>) -> Seq<char>
    decreases es.len(),
{
    if es.len() == 0 {
        Seq::empty()
    } else if es.len() == 1 {
        spec_entry_text(es[0])
    } else {
        spec_entry_text(es[0]) + seq![','] + spec_listing_items(es.skip(1))
    }
}

/// Wire text of a whole listing.
pub open spec fn spec_encode_listing(es: Seq<EntryModel>) -> Seq<char> {
    seq!['['] + spec_listing_items(es) + seq![']']
}

/// Reads one listing entry from the front of `s`.
pub open spec fn parse_entry(s: Seq<char>) -> Option<(EntryModel, Seq<char>)> {
    match match_lit(s, key_id()) {
        None => None,
        Some(r1) => match parse_int(r1) {
            None => None,
            Some(p) => match match_lit(p.1, key_name_mid()) {
                None => None,
                Some(r3) => match parse_quoted(r3) {
                    None => None,
                    Some(q) => if q.1.len() > 0 && q.1[0] == '}' {
                        Some((EntryModel { id: p.0, name: q.0 }, q.1.skip(1)))
                    } else {
                        None
                    },
                },
            },
        },
    }
}

proof fn lemma_parse_entry_advances(s: Seq<char>)
    ensures
        parse_entry(s) matches Some(p) ==> p.1.len() < s.len(),
{
    match match_lit(s, key_id()) {
        Some(r1) => {
            lemma_parse_int_advances(r1);
            match parse_int(r1) {
                Some(p) => {
                    match match_lit(p.1, key_name_mid()) {
                        Some(r3) => {
                            crate::strtext::lemma_parse_quoted_advances(r3);
                        },
                        None => {},
                    }
                },
                None => {},
            }
        },
        None => {},
    }
}

/// Reads listing entries from the first expected entry on, consuming
/// the closing bracket: the entries read, in the order the text gives
/// them, and the text after the bracket.
pub open spec fn parse_entry_items(s: Seq<char>) -> Option<(Seq<EntryModel>, Seq<char>)>
    decreases s.len(),
    via parse_entry_items_dec
{
    match parse_entry(s) {
        None => None,
        Some(p) => if p.1.len() > 0 && p.1[0] == ',' {
            match parse_entry_items(p.1.skip(1)) {
                Some(q) => Some((seq![p.0] + q.0, q.1)),
                None => None,
            }
        } else if p.1.len() > 0 && p.1[0] == ']' {
            Some((seq![p.0], p.1.skip(1)))
        } else {
            None
        },
    }
}

#[via_fn]
proof fn parse_entry_items_dec(s: Seq<char>) {
    lemma_parse_entry_advances(s);
}

/// Reads a whole listing: the text must be exactly one bracketed
/// sequence of entries, with nothing before or after it.
pub open spec fn parse_listing_text(s: Seq<char>) -> Option<Seq<EntryModel>> {
    if s.len() == 2 && s[0] == '[' && s[1] == ']' {
        Some(Seq::empty())
    } else if s.len() > 0 && s[0] == '[' {
        match parse_entry_items(s.skip(1)) {
            Some(p) => if p.1.len() == 0 {
                Some(p.0)
            } else {
                None
            },
            None => None,
        }
    } else {
        None
    }
}

/// The listing entries a sequence of in-memory entities stands for.
pub open spec fn entries_model(v: Seq<FileEntity>) -> Seq<EntryModel> {
    v.map_values(|e: FileEntity| e@)
}

/// Reads one entry starting at character `i` of `s`, exactly as
/// `parse_entry` reads the text from `i` on.
fn scan_entry(s: &str, i: usize) -> (r: Option<(FileEntity, usize)>)
    requires
        i <= s@.len(),
    ensures
        match r {
            Some(p) => {
                &&& p.1 <= s@.len()
                &&& parse_entry(s@.skip(i as int)) == Some((p.0@, s@.skip(p.1 as int)))
            },
            None => parse_entry(s@.skip(i as int)) is None,
        },
{
    proof {
        reveal_strlit("{\"id\":");
        reveal_strlit(",\"name\":");
        assert("{\"id\":"@ =~= key_id());
        assert(",\"name\":"@ =~= key_name_mid());
    }
    let i1 = match scan_lit(s, i, "{\"id\":") {
        Some(j) => j,
        None => {
            return None;
        },
    };
    let (id, i2) = match scan_int(s, i1) {
        Some(p) => p,
        None => {
            return None;
        },
    };
    let i3 = match scan_lit(s, i2, ",\"name\":") {
        Some(j) => j,
        None => {
            return None;
        },
    };
    let (name, i4) = match scan_quoted(s, i3) {
        Some(p) => p,
        None => {
            return None;
        },
    };
    let n = s.unicode_len();
    if i4 < n && s.get_char(i4) == '}' {
        proof {
            assert(s@.skip(i4 as int)[0] == s@[i4 as int]);
            assert(s@.skip(i4 as int).skip(1) =~= s@.skip(i4 + 1));
        }
        Some((FileEntity::new(id, name), i4 + 1))
    } else {
        proof {
            if i4 < n {
                assert(s@.skip(i4 as int)[0] == s@[i4 as int]);
            }
            assert(s@.skip(i4 as int).len() == s@.len() - i4);
        }
        None
    }
}

fn scan_entry_items(s: &str, i: usize) -> (r: Option<(Vec<FileEntity>, usize)>)
    requires
        i <= s@.len(),
    ensures
        match r {
            Some(p) => {
                &&& p.1 <= s@.len()
                &&& parse_entry_items(s@.skip(i as int)) == Some(
                    (entries_model(p.0@), s@.skip(p.1 as int)),
                )
            },
            None => parse_entry_items(s@.skip(i as int)) is None,
        },
    decreases s@.len() - i,
{
    let n = s.unicode_len();
    match scan_entry(s, i) {
        None => None,
        Some((ent, j)) => {
            proof {
                lemma_parse_entry_advances(s@.skip(i as int));
            }
            if j < n {
                let c = s.get_char(j);
                assert(s@.skip(j as int)[0] == s@[j as int]);
                if c == ',' {
                    proof {
                        assert(s@.skip(j as int).skip(1) =~= s@.skip(j + 1));
                    }
                    match scan_entry_items(s, j + 1) {
                        Some((t, k)) => {
                            let mut out: Vec<FileEntity> = Vec::new();
                            let ghost entm = ent@;
                            out.push(ent);
                            let mut t = t;
                            let ghost t0 = t@;
                            out.append(&mut t);
                            proof {
                                assert(out@ =~= seq![out@[0]] + t0);
                                assert(entries_model(out@) =~= seq![entm] + entries_model(t0));
                            }
                            Some((out, k))
                        },
                        None => None,
                    }
                } else if c == ']' {
                    let mut out: Vec<FileEntity> = Vec::new();
                    let ghost entm = ent@;
                    out.push(ent);
                    proof {
                        assert(entries_model(out@) =~= seq![entm]);
                        assert(s@.skip(j as int).skip(1) =~= s@.skip(j + 1));
                    }
                    Some((out, j + 1))
                } else {
                    None
                }
            } else {
                assert(s@.skip(j as int).len() == 0);
                None
            }
        },
    }
}

/// Reads a listing out of a server response body.  The result is
/// exactly what `parse_listing_text` reads from the text: decoding
/// succeeds if and only if the body is well-formed wire text for a
/// listing, and then returns its entries in the order the text gives
/// them.
pub fn decode_listing(text: &str) -> (r: Result<Vec<FileEntity>, DecodeError>)
    ensures
        match r {
            Ok(v) => parse_listing_text(text@) == Some(entries_model(v@)),
            Err(_) => parse_listing_text(text@) is None,
        },
{
    let n = text.unicode_len();
    if n == 2 && text.get_char(0) == '[' && text.get_char(1) == ']' {
        let out: Vec<FileEntity> = Vec::new();
        proof {
            assert(entries_model(out@) =~= Seq::<EntryModel>::empty());
        }
        return Ok(out);
    }
    if n > 0 && text.get_char(0) == '[' {
        match scan_entry_items(text, 1) {
            Some((v, j)) => {
                if j == n {
                    assert(text@.skip(j as int).len() == 0);
                    Ok(v)
                } else {
                    assert(text@.skip(j as int).len() != 0);
                    Err(DecodeError)
                }
            },
            None => Err(DecodeError),
        }
    } else {
        Err(DecodeError)
    }
}

/// Reading the wire text of one entry back, with anything after it,
/// yields the entry exactly, provided its identifier fits the wire's
/// signed 32-bit range.
#[verifier::rlimit(60)]
proof fn lemma_parse_entry_of_text(e: EntryModel, rest: Seq<char>)
    requires
        -0x80000000 <= e.id <= 0x7fffffff,
    ensures
        parse_entry(spec_entry_text(e) + rest) == Some((e, rest)),
{
    let s = spec_entry_text(e) + rest;
    let t1 = spec_int_text(e.id) + key_name_mid() + spec_quoted(e.name) + seq!['}'] + rest;
    assert(s =~= key_id() + t1);
    assert(s.take(key_id().len() as int) =~= key_id());
    assert(s.skip(key_id().len() as int) =~= t1);
    let t2 = key_name_mid() + spec_quoted(e.name) + seq!['}'] + rest;
    assert(t1 =~= spec_int_text(e.id) + t2);
    assert(t2[0] == ',');
    lemma_parse_int_of_text(e.id, t2);
    assert(t2.take(key_name_mid().len() as int) =~= key_name_mid());
    let t3 = spec_quoted(e.name) + (seq!['}'] + rest);
    assert(t2.skip(key_name_mid().len() as int) =~= t3);
    lemma_parse_quoted_of_text(e.name, seq!['}'] + rest);
    assert((seq!['}'] + rest)[0] == '}');
    assert((seq!['}'] + rest).skip(1) =~= rest);
    assert(parse_entry(s) == Some((EntryModel { id: e.id, name: e.name }, rest)));
    assert(EntryModel { id: e.id, name: e.name } =~= e);
}

proof fn lemma_parse_entry_items_of_text(es: Seq<EntryModel>, rest: Seq<char>)
    requires
        es.len() >= 1,
        forall|i: int| 0 <= i < es.len() ==> -0x80000000 <= (#[trigger] es[i]).id <= 0x7fffffff,
    ensures
        parse_entry_items(spec_listing_items(es) + seq![']'] + rest) == Some((es, rest)),
    decreases es.len(),
{
    let s = spec_listing_items(es) + seq![']'] + rest;
    if es.len() == 1 {
        assert(s =~= spec_entry_text(es[0]) + (seq![']'] + rest));
        lemma_parse_entry_of_text(es[0], seq![']'] + rest);
        assert((seq![']'] + rest)[0] == ']');
        assert((seq![']'] + rest)[0] != ',');
        assert((seq![']'] + rest).skip(1) =~= rest);
        assert(seq![es[0]] =~= es);
    } else {
        let tail_text = spec_listing_items(es.skip(1)) + seq![']'] + rest;
        assert(s =~= spec_entry_text(es[0]) + (seq![','] + tail_text));
        lemma_parse_entry_of_text(es[0], seq![','] + tail_text);
        assert((seq![','] + tail_text)[0] == ',');
        assert((seq![','] + tail_text).skip(1) =~= tail_text);
        lemma_parse_entry_items_of_text(es.skip(1), rest);
        assert(seq![es[0]] + es.skip(1) =~= es);
    }
}

/// Round trip for listings, and with it order preservation: the wire
/// text of any entry sequence whose identifiers fit the wire's signed
/// 32-bit range reads back to exactly that sequence, in the same
/// order.
pub proof fn lemma_listing_round_trip(es: Seq<EntryModel>)
    requires
        forall|i: int| 0 <= i < es.len() ==> -0x80000000 <= (#[trigger] es[i]).id <= 0x7fffffff,
    ensures
        parse_listing_text(spec_encode_listing(es)) == Some(es),
{
    let s = spec_encode_listing(es);
    assert(s[0] == '[');
    if es.len() == 0 {
        assert(spec_listing_items(es) =~= Seq::<char>::empty());
        assert(s =~= seq!['[', ']']);
    } else {
        lemma_spec_digits_read_back(if es[0].id < 0 { (-es[0].id) as nat } else { es[0].id as nat });
        assert(spec_int_text(es[0].id).len() >= 1);
        assert(spec_entry_text(es[0]).len() >= 18);
        assert(spec_listing_items(es).len() >= 18);
        assert(s.len() >= 20);
        assert(s.skip(1) =~= spec_listing_items(es) + seq![']'] + Seq::<char>::empty());
        lemma_parse_entry_items_of_text(es, Seq::<char>::empty());
    }
}

/// Round trip: the wire text of any envelope — any name, any byte
/// sequence — reads back to exactly that envelope.
pub proof fn lemma_content_round_trip(e: EnvelopeModel)
    ensures
        parse_content_text(spec_encode_content(e)) == Some(e),
{
    let s = spec_encode_content(e);
    let t1 = spec_quoted(e.name) + key_content() + spec_bytes_text(e.content) + seq!['}'];
    assert(s =~= key_name() + t1);
    assert(s.take(key_name().len() as int) =~= key_name());
    assert(s.skip(key_name().len() as int) =~= t1);
    let t2 = key_content() + spec_bytes_text(e.content) + seq!['}'];
    assert(t1 =~= spec_quoted(e.name) + t2);
    lemma_parse_quoted_of_text(e.name, t2);
    assert(t2.take(key_content().len() as int) =~= key_content());
    let t3 = spec_bytes_text(e.content) + seq!['}'];
    assert(t2.skip(key_content().len() as int) =~= t3);
    lemma_parse_bytes_of_text(e.content, seq!['}']);
    assert(parse_content_text(s) == Some(EnvelopeModel { name: e.name, content: e.content }));
    assert(EnvelopeModel { name: e.name, content: e.content } =~= e);
}

} // verus!
