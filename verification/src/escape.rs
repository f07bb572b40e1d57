//! Quoted string literals of the persisted format: a double-quoted run of
//! characters in which `"` and `\` are backslash-escaped and every other
//! character stands for itself.

use vstd::prelude::*;

verus! {

/// Whether `c` must be escaped inside a quoted literal.
pub open spec fn needs_escape(c: char) -> bool {
    c == '"' || c == '\\'
}

/// The rendering of one character inside a quoted literal.
pub open spec fn esc_char(c: char) -> Seq<char> {
    if needs_escape(c) {
        seq!['\\', c]
    } else {
        seq![c]
    }
}

/// The rendering of a whole character sequence inside a quoted literal.
pub open spec fn esc(s: Seq<char>) -> Seq<char>
    decreases s.len(),
{
    if s.len() == 0 {
        Seq::empty()
    } else {
        esc_char(s[0]) + esc(s.drop_first())
    }
}

/// The full quoted literal for `s`.
pub open spec fn quote(s: Seq<char>) -> Seq<char> {
    seq!['"'] + esc(s) + seq!['"']
}

/// Prefixes a parsed value onto a parse result, leaving the remainder alone.
pub open spec fn prepend_parsed(pre: Seq<char>, r: Option<(Seq<char>, Seq<char>)>) -> Option<
    (Seq<char>, Seq<char>),
> {
    match r {
        Some(p) => Some((pre + p.0, p.1)),
        None => None,
    }
}

/// Parsing the body of a quoted literal (everything after the opening `"`):
/// characters up to the first unescaped `"`, with the two escape forms
/// decoded. On success the decoded characters and the remainder after the
/// closing `"` are returned.
pub open spec fn parse_quoted_body(s: Seq<char>) -> Option<(Seq<char>, Seq<char>)>
    decreases s.len(),
{
    if s.len() == 0 {
        None
    } else if s[0] == '"' {
        Some((Seq::empty(), s.drop_first()))
    } else if s[0] == '\\' {
        if s.len() >= 2 && needs_escape(s[1]) {
            prepend_parsed(seq![s[1]], parse_quoted_body(s.skip(2)))
        } else {
            None
        }
    } else {
        prepend_parsed(seq![s[0]], parse_quoted_body(s.drop_first()))
    }
}

/// Parsing a quoted literal from the front of `s`: an opening `"`, then the
/// body as [`parse_quoted_body`] describes.
pub open spec fn parse_quoted(s: Seq<char>) -> Option<(Seq<char>, Seq<char>)> {
    if s.len() > 0 && s[0] == '"' {
        parse_quoted_body(s.drop_first())
    } else {
        None
    }
}

/// Escaping distributes over appending one character.
proof fn lemma_esc_snoc(s: Seq<char>, c: char)
    ensures
        esc(s.push(c)) == esc(s) + esc_char(c),
    decreases s.len(),
{
    if s.len() == 0 {
        assert(s.push(c).drop_first() =~= Seq::<char>::empty());
        assert(esc(Seq::<char>::empty()) =~= Seq::<char>::empty());
        assert(s.push(c)[0] == c);
        assert(esc(s.push(c)) =~= esc_char(c));
        assert(esc(s) + esc_char(c) =~= esc_char(c));
    } else {
        lemma_esc_snoc(s.drop_first(), c);
        assert(s.push(c).drop_first() =~= s.drop_first().push(c));
        assert(esc(s.push(c)) == esc_char(s[0]) + (esc(s.drop_first()) + esc_char(c)));
        assert(esc_char(s[0]) + (esc(s.drop_first()) + esc_char(c)) =~= (esc_char(s[0]) + esc(
            s.drop_first(),
        )) + esc_char(c));
    }
}

/// Round trip for literal bodies: the escaped text of `v`, a closing `"`, and
/// any remainder parse back to exactly `v` with that remainder.
proof fn lemma_parse_quoted_body_round_trip(v: Seq<char>, rest: Seq<char>)
    ensures
        parse_quoted_body(esc(v) + seq!['"'] + rest) == Some((v, rest)),
    decreases v.len(),
{
    let s = esc(v) + seq!['"'] + rest;
    if v.len() == 0 {
        assert(s[0] == '"');
        assert(s.drop_first() =~= rest);
    } else {
        let c = v[0];
        let tail = esc(v.drop_first()) + seq!['"'] + rest;
        lemma_parse_quoted_body_round_trip(v.drop_first(), rest);
        if needs_escape(c) {
            assert(s[0] == '\\');
            assert(s[1] == c);
            assert(s.len() >= 2);
            assert(s.skip(2) =~= tail);
            assert(seq![c] + v.drop_first() =~= v);
        } else {
            assert(s[0] == c);
            assert(s.drop_first() =~= tail);
            assert(seq![c] + v.drop_first() =~= v);
        }
    }
}

/// Round trip for quoted literals, see [`lemma_parse_quoted_body_round_trip`].
pub proof fn lemma_parse_quoted_round_trip(v: Seq<char>, rest: Seq<char>)
    ensures
        parse_quoted(quote(v) + rest) == Some((v, rest)),
{
    let s = quote(v) + rest;
    assert(s[0] == '"');
    assert(s.drop_first() =~= esc(v) + seq!['"'] + rest);
    lemma_parse_quoted_body_round_trip(v, rest);
}

/// Appends the quoted literal for `v` onto `out`.
pub fn push_quoted(out: &mut Vec<char>, v: &Vec<char>)
    ensures
        final(out)@ == old(out)@ + quote(v@),
{
    out.push('"');
    let ghost base = out@;
    for i in 0..v.len()
        invariant
            out@ == base + esc(v@.take(i as int)),
            base == old(out)@ + seq!['"'],
    {
        proof {
            lemma_esc_snoc(v@.take(i as int), v@[i as int]);
            assert(v@.take(i as int).push(v@[i as int]) =~= v@.take(i as int + 1));
        }
        let c = v[i];
        if c == '"' || c == '\\' {
            out.push('\\');
            out.push(c);
        } else {
            out.push(c);
        }
        assert(out@ =~= base + esc(v@.take(i as int + 1)));
    }
    out.push('"');
    assert(v@.take(v@.len() as int) =~= v@);
    assert(out@ =~= old(out)@ + quote(v@));
}

/// Parses a quoted literal starting at position `i` of `s`, as
/// [`parse_quoted`] describes on the remaining characters; on success `j` is
/// the first position after the closing `"`.
pub fn parse_quoted_at(s: &Vec<char>, i: usize) -> (r: Option<(Vec<char>, usize)>)
    requires
        i <= s.len(),
    ensures
        match r {
            Some(p) => {
                &&& i < p.1 <= s@.len()
                &&& parse_quoted(s@.skip(i as int)) == Some((p.0@, s@.skip(p.1 as int)))
            },
            None => parse_quoted(s@.skip(i as int)) is None,
        },
{
    if i == s.len() || s[i] != '"' {
        return None;
    }
    proof {
        assert(s@.skip(i as int)[0] == s@[i as int]);
        assert(s@.skip(i as int).drop_first() =~= s@.skip(i as int + 1));
    }
    let mut out: Vec<char> = Vec::new();
    let mut j: usize = i + 1;
    loop
        invariant
            i < s@.len(),
            i + 1 <= j <= s@.len(),
            s@[i as int] == '"',
            parse_quoted(s@.skip(i as int)) == prepend_parsed(
                out@,
                parse_quoted_body(s@.skip(j as int)),
            ),
        decreases s@.len() - j,
    {
        if j == s.len() {
            // The literal never closed; the tail parses to nothing.
            proof {
                assert(s@.skip(j as int) =~= Seq::<char>::empty());
                assert(parse_quoted_body(Seq::<char>::empty()) is None);
            }
            return None;
        }
        let c = s[j];
        let ghost tj = s@.skip(j as int);
        proof {
            assert(tj[0] == s@[j as int]);
            assert(tj.drop_first() =~= s@.skip(j as int + 1));
        }
        if c == '"' {
            proof {
                assert(parse_quoted_body(tj) == Some((Seq::<char>::empty(), s@.skip(j as int + 1))));
                assert(out@ + Seq::<char>::empty() =~= out@);
            }
            return Some((out, j + 1));
        } else if c == '\\' {
            if j + 1 == s.len() {
                return None;
            }
            let d = s[j + 1];
            if d == '"' || d == '\\' {
                proof {
                    assert(tj.len() >= 2);
                    assert(tj[1] == s@[j as int + 1]);
                    assert(tj.skip(2) =~= s@.skip(j as int + 2));
                    lemma_prepend_parsed_assoc(out@, seq![d], parse_quoted_body(s@.skip(j as int + 2)));
                    assert(out@.push(d) =~= out@ + seq![d]);
                }
                out.push(d);
                j = j + 2;
            } else {
                return None;
            }
        } else {
            proof {
                lemma_prepend_parsed_assoc(out@, seq![c], parse_quoted_body(s@.skip(j as int + 1)));
                assert(out@.push(c) =~= out@ + seq![c]);
            }
            out.push(c);
            j = j + 1;
        }
    }
}

/// Prefixing twice is prefixing with the concatenation.
proof fn lemma_prepend_parsed_assoc(a: Seq<char>, b: Seq<char>, r: Option<(Seq<char>, Seq<char>)>)
    ensures
        prepend_parsed(a, prepend_parsed(b, r)) == prepend_parsed(a + b, r),
{
    match r {
        Some(p) => {
            assert(a + (b + p.0) =~= (a + b) + p.0);
        },
        None => {},
    }
}

} // verus!
