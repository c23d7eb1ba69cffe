//! Quoted, escaped string fields of the wire text: writing a name out
//! and reading one back.

use vstd::prelude::*;

verus! {

/// Relies on `String::push`: appends the given character to the end of
/// the string.
#[verifier::external_body]
pub(crate) fn push_char(s: &mut String, c: char)
    ensures
        final(s)@ == old(s)@.push(c),
{
    s.push(c)
}

/// Wire form of one name character: a quote or a backslash carries a
/// backslash before it, every other character stands as itself.
pub open spec fn esc_char(c: char) -> Seq<char> {
    if c == '"' || c == '\\' {
        seq!['\\', c]
    } else {
        seq![c]
    }
}

pub open spec fn spec_escape(s: Seq<char>) -> Seq<char>
    decreases s.len(),
{
    if s.len() == 0 {
        Seq::empty()
    } else {
        esc_char(s[0]) + spec_escape(s.skip(1))
    }
}

/// Wire form of a whole name: the escaped characters between quotes.
pub open spec fn spec_quoted(s: Seq<char>) -> Seq<char> {
    seq!['"'] + spec_escape(s) + seq!['"']
}

/// Reads the body of a quoted string, the opening quote already
/// consumed: the unescaped characters up to the closing quote, and the
/// text after it.  A backslash must carry a quote or a backslash; an
/// unfinished escape or a missing closing quote reads as nothing.
pub open spec fn parse_str_chars(s: Seq<char>) -> Option<(Seq<char>, Seq<char>)>
    decreases s.len(),
{
    if s.len() == 0 {
        None
    } else if s[0] == '"' {
        Some((Seq::empty(), s.skip(1)))
    } else if s[0] == '\\' {
        if s.len() >= 2 && (s[1] == '"' || s[1] == '\\') {
            match parse_str_chars(s.skip(2)) {
                Some(p) => Some((seq![s[1]] + p.0, p.1)),
                None => None,
            }
        } else {
            None
        }
    } else {
        match parse_str_chars(s.skip(1)) {
            Some(p) => Some((seq![s[0]] + p.0, p.1)),
            None => None,
        }
    }
}

/// Reads a quoted string from the front of `s`.
pub open spec fn parse_quoted(s: Seq<char>) -> Option<(Seq<char>, Seq<char>)> {
    if s.len() > 0 && s[0] == '"' {
        parse_str_chars(s.skip(1))
    } else {
        None
    }
}

proof fn lemma_escape_push(s: Seq<char>, c: char)
    ensures
        spec_escape(s.push(c)) == spec_escape(s) + esc_char(c),
    decreases s.len(),
{
    if s.len() == 0 {
        assert(s.push(c)[0] == c);
        assert(s.push(c).skip(1) =~= Seq::<char>::empty());
        assert(spec_escape(s.push(c)) == esc_char(c) + spec_escape(Seq::<char>::empty()));
        assert(spec_escape(s.push(c)) =~= esc_char(c));
        assert(spec_escape(s) + esc_char(c) =~= esc_char(c));
    } else {
        assert(s.push(c)[0] == s[0]);
        assert(s.push(c).skip(1) =~= s.skip(1).push(c));
        lemma_escape_push(s.skip(1), c);
        assert(esc_char(s[0]) + (spec_escape(s.skip(1)) + esc_char(c)) =~= (esc_char(s[0])
            + spec_escape(s.skip(1))) + esc_char(c));
    }
}

/// Writes a name in its wire form: quoted, with quotes and backslashes
/// escaped.
pub fn quoted_text(name: &str) -> (r: String)
    ensures
        r@ == spec_quoted(name@),
{
    let n = name.unicode_len();
    let mut out = String::new();
    push_char(&mut out, '"');
    proof {
        assert(out@ =~= seq!['"'] + spec_escape(name@.take(0)));
    }
    let mut i: usize = 0;
    while i < n
        invariant
            i <= n,
            n == name@.len(),
            out@ == seq!['"'] + spec_escape(name@.take(i as int)),
        decreases n - i,
    {
        let c = name.get_char(i);
        if c == '"' || c == '\\' {
            push_char(&mut out, '\\');
            push_char(&mut out, c);
        } else {
            push_char(&mut out, c);
        }
        proof {
            lemma_escape_push(name@.take(i as int), c);
            assert(name@.take(i + 1) =~= name@.take(i as int).push(name@[i as int]));
            assert(out@ =~= seq!['"'] + spec_escape(name@.take(i + 1)));
        }
        i = i + 1;
    }
    push_char(&mut out, '"');
    proof {
        assert(name@.take(n as int) =~= name@);
        assert(out@ =~= spec_quoted(name@));
    }
    out
}

/// Reads the quoted string that starts at character `i` of `s`,
/// exactly as `parse_quoted` reads the text from `i` on: the unescaped
/// name and the index just past the closing quote.
pub fn scan_quoted(s: &str, i: usize) -> (r: Option<(String, usize)>)
    requires
        i <= s@.len(),
    ensures
        match r {
            Some(p) => {
                &&& p.1 <= s@.len()
                &&& parse_quoted(s@.skip(i as int)) == Some((p.0@, s@.skip(p.1 as int)))
            },
            None => parse_quoted(s@.skip(i as int)) is None,
        },
{
    let n = s.unicode_len();
    if i < n && s.get_char(i) == '"' {
        assert(s@.skip(i as int)[0] == s@[i as int]);
        let r = scan_str_chars(s, i + 1);
        proof {
            assert(s@.skip(i as int).skip(1) =~= s@.skip(i + 1));
        }
        r
    } else {
        proof {
            if i < n {
                assert(s@.skip(i as int)[0] == s@[i as int]);
            }
        }
        None
    }
}

fn scan_str_chars(s: &str, i: usize) -> (r: Option<(String, usize)>)
    requires
        i <= s@.len(),
    ensures
        match r {
            Some(p) => {
                &&& p.1 <= s@.len()
                &&& parse_str_chars(s@.skip(i as int)) == Some((p.0@, s@.skip(p.1 as int)))
            },
            None => parse_str_chars(s@.skip(i as int)) is None,
        },
    decreases s@.len() - i,
{
    let ghost sk = s@.skip(i as int);
    let n = s.unicode_len();
    if i == n {
        return None;
    }
    let c = s.get_char(i);
    assert(sk[0] == s@[i as int]);
    if c == '"' {
        proof {
            assert(sk.skip(1) =~= s@.skip(i + 1));
        }
        Some((String::new(), i + 1))
    } else if c == '\\' {
        if i + 1 < n {
            let c2 = s.get_char(i + 1);
            assert(sk[1] == s@[i + 1]);
            if c2 == '"' || c2 == '\\' {
                proof {
                    assert(sk.skip(2) =~= s@.skip(i + 2));
                }
                match scan_str_chars(s, i + 2) {
                    Some((t, j)) => {
                        let mut out = String::new();
                        push_char(&mut out, c2);
                        out.append(t.as_str());
                        proof {
                            assert(out@ =~= seq![sk[1]] + t@);
                        }
                        Some((out, j))
                    },
                    None => None,
                }
            } else {
                None
            }
        } else {
            assert(sk.len() < 2);
            None
        }
    } else {
        proof {
            assert(sk.skip(1) =~= s@.skip(i + 1));
        }
        match scan_str_chars(s, i + 1) {
            Some((t, j)) => {
                let mut out = String::new();
                push_char(&mut out, c);
                out.append(t.as_str());
                proof {
                    assert(out@ =~= seq![sk[0]] + t@);
                }
                Some((out, j))
            },
            None => None,
        }
    }
}

/// A quoted string that reads successfully consumes at least its two
/// quotes.
pub proof fn lemma_parse_quoted_advances(s: Seq<char>)
    ensures
        parse_quoted(s) matches Some(p) ==> p.1.len() < s.len(),
{
    if s.len() > 0 && s[0] == '"' {
        lemma_parse_str_chars_advances(s.skip(1));
    }
}

proof fn lemma_parse_str_chars_advances(s: Seq<char>)
    ensures
        parse_str_chars(s) matches Some(p) ==> p.1.len() < s.len(),
    decreases s.len(),
{
    if s.len() == 0 {
    } else if s[0] == '"' {
    } else if s[0] == '\\' {
        if s.len() >= 2 && (s[1] == '"' || s[1] == '\\') {
            lemma_parse_str_chars_advances(s.skip(2));
        }
    } else {
        lemma_parse_str_chars_advances(s.skip(1));
    }
}

/// Reading a name's wire form back, with anything after the closing
/// quote, yields the name exactly: escaping loses nothing, whatever
/// characters the name holds.
pub proof fn lemma_parse_quoted_of_text(name: Seq<char>, rest: Seq<char>)
    ensures
        parse_quoted(spec_quoted(name) + rest) == Some((name, rest)),
{
    let s = spec_quoted(name) + rest;
    assert(s[0] == '"');
    assert(s.skip(1) =~= spec_escape(name) + seq!['"'] + rest);
    lemma_parse_str_chars_of_text(name, rest);
}

proof fn lemma_parse_str_chars_of_text(name: Seq<char>, rest: Seq<char>)
    ensures
        parse_str_chars(spec_escape(name) + seq!['"'] + rest) == Some((name, rest)),
    decreases name.len(),
{
    let s = spec_escape(name) + seq!['"'] + rest;
    if name.len() == 0 {
        assert(spec_escape(name) =~= Seq::<char>::empty());
        assert(s =~= seq!['"'] + rest);
        assert(s[0] == '"');
        assert(s.skip(1) =~= rest);
    } else {
        let c = name[0];
        let tail = name.skip(1);
        lemma_parse_str_chars_of_text(tail, rest);
        assert(spec_escape(name) == esc_char(c) + spec_escape(tail));
        if c == '"' || c == '\\' {
            assert(s =~= seq!['\\', c] + (spec_escape(tail) + seq!['"'] + rest));
            assert(s[0] == '\\');
            assert(s[1] == c);
            assert(s.len() >= 2);
            assert(s.skip(2) =~= spec_escape(tail) + seq!['"'] + rest);
            assert(seq![s[1]] + tail =~= name);
        } else {
            assert(s =~= seq![c] + (spec_escape(tail) + seq!['"'] + rest));
            assert(s[0] == c);
            assert(s.skip(1) =~= spec_escape(tail) + seq!['"'] + rest);
            assert(seq![s[0]] + tail =~= name);
        }
    }
}

} // verus!
