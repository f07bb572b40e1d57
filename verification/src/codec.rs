//! The persisted form of the whole store: one object whose field names are
//! the keys and whose field values are objects with a `value` string and an
//! `expires_at` number or null, e.g.
//! `{"a":{"value":"1","expires_at":null},"b":{"value":"2","expires_at":17}}`.
//!
//! The renderer produces exactly one text per store, and the parser accepts
//! exactly the rendered texts; anything else is treated as corrupt by the
//! loading layer. The round trip is proved in
//! [`lemma_parse_store_round_trip`].

use vstd::prelude::*;
use crate::digits::{dec_digits, is_digit, lemma_parse_number_round_trip, parse_number};
use crate::entry::{Entry, EntryModel, Rec, seq_views};
use crate::escape::{lemma_parse_quoted_round_trip, parse_quoted, quote};

verus! {

/// The text `"value":` introducing the payload field.
pub open spec fn tok_value() -> Seq<char> {
    seq!['"', 'v', 'a', 'l', 'u', 'e', '"', ':']
}

/// The text `,"expires_at":` introducing the expiry field.
pub open spec fn tok_expires() -> Seq<char> {
    seq![',', '"', 'e', 'x', 'p', 'i', 'r', 'e', 's', '_', 'a', 't', '"', ':']
}

/// The text `null`, the expiry of an entry that never expires.
pub open spec fn tok_null() -> Seq<char> {
    seq!['n', 'u', 'l', 'l']
}

/// The rendering of an expiry: its decimal seconds, or `null`.
pub open spec fn render_expiry(e: Option<u64>) -> Seq<char> {
    match e {
        Some(n) => dec_digits(n as nat),
        None => tok_null(),
    }
}

/// The rendering of one record: `{"value":<quoted>,"expires_at":<expiry>}`.
pub open spec fn render_rec(r: Rec) -> Seq<char> {
    seq!['{'] + tok_value() + quote(r.value) + tok_expires() + render_expiry(r.expires_at) + seq![
        '}',
    ]
}

/// The rendering of one entry: `<quoted key>:<record>`.
pub open spec fn render_entry(e: EntryModel) -> Seq<char> {
    quote(e.key) + seq![':'] + render_rec(e.rec())
}

/// The rendering of the entry list, comma-separated.
pub open spec fn render_entries(es: Seq<EntryModel>) -> Seq<char>
    decreases es.len(),
{
    if es.len() == 0 {
        Seq::empty()
    } else if es.len() == 1 {
        render_entry(es[0])
    } else {
        render_entry(es[0]) + seq![','] + render_entries(es.drop_first())
    }
}

/// The rendering of the whole store: the entry list in braces.
pub open spec fn render_store(es: Seq<EntryModel>) -> Seq<char> {
    seq!['{'] + render_entries(es) + seq!['}']
}

/// Whether `s` begins with the text `tok`.
pub open spec fn starts_with(s: Seq<char>, tok: Seq<char>) -> bool {
    s.len() >= tok.len() && s.take(tok.len() as int) == tok
}

/// Parsing an expiry from the front of `s`: `null`, or a decimal number.
pub open spec fn parse_expiry(s: Seq<char>) -> Option<(Option<u64>, Seq<char>)> {
    if starts_with(s, tok_null()) {
        Some((None, s.skip(tok_null().len() as int)))
    } else {
        match parse_number(s) {
            Some(p) => Some((Some(p.0), p.1)),
            None => None,
        }
    }
}

/// Parsing one record from the front of `s`, the exact shape of
/// [`render_rec`].
pub open spec fn parse_rec(s: Seq<char>) -> Option<(Rec, Seq<char>)> {
    if s.len() >= 1 && s[0] == '{' && starts_with(s.skip(1), tok_value()) {
        match parse_quoted(s.skip(1 + tok_value().len() as int)) {
            Some((v, t)) => {
                if starts_with(t, tok_expires()) {
                    match parse_expiry(t.skip(tok_expires().len() as int)) {
                        Some((e, u)) => {
                            if u.len() >= 1 && u[0] == '}' {
                                Some((Rec { value: v, expires_at: e }, u.skip(1)))
                            } else {
                                None
                            }
                        },
                        None => None,
                    }
                } else {
                    None
                }
            },
            None => None,
        }
    } else {
        None
    }
}

/// Parsing one entry from the front of `s`: a quoted key, `:`, a record.
pub open spec fn parse_entry(s: Seq<char>) -> Option<(EntryModel, Seq<char>)> {
    match parse_quoted(s) {
        Some((k, t)) => {
            if t.len() >= 1 && t[0] == ':' {
                match parse_rec(t.skip(1)) {
                    Some((r, u)) => Some(
                        (EntryModel { key: k, value: r.value, expires_at: r.expires_at }, u),
                    ),
                    None => None,
                }
            } else {
                None
            }
        },
        None => None,
    }
}

/// Parsing one or more comma-separated entries followed by the closing `}`;
/// the remainder after the `}` is returned. The recursion also demands that
/// each entry consumed at least one character, which rendered texts always
/// satisfy.
pub open spec fn parse_entries(s: Seq<char>) -> Option<(Seq<EntryModel>, Seq<char>)>
    decreases s.len(),
{
    match parse_entry(s) {
        Some((e, t)) => {
            if t.len() >= 1 && t[0] == '}' {
                Some((seq![e], t.skip(1)))
            } else if t.len() >= 1 && t[0] == ',' && t.len() < s.len() {
                match parse_entries(t.skip(1)) {
                    Some((es, u)) => Some((seq![e] + es, u)),
                    None => None,
                }
            } else {
                None
            }
        },
        None => None,
    }
}

/// Parsing a whole store text, strictly: `{}` or `{<entries>}`, with nothing
/// before or after.
pub open spec fn parse_store(s: Seq<char>) -> Option<Seq<EntryModel>> {
    if s.len() >= 1 && s[0] == '{' {
        if s.len() == 2 && s[1] == '}' {
            Some(Seq::empty())
        } else {
            match parse_entries(s.skip(1)) {
                Some((es, u)) => if u.len() == 0 {
                    Some(es)
                } else {
                    None
                },
                None => None,
            }
        }
    } else {
        None
    }
}

/// A concatenation starts with its first part, and skipping that part leaves
/// the second.
pub proof fn lemma_prefix(a: Seq<char>, b: Seq<char>)
    ensures
        starts_with(a + b, a),
        (a + b).skip(a.len() as int) == b,
{
    assert((a + b).take(a.len() as int) =~= a);
    assert((a + b).skip(a.len() as int) =~= b);
}

/// Round trip for expiries: a rendered expiry followed by `}` and anything
/// more parses back exactly.
pub proof fn lemma_parse_expiry_round_trip(e: Option<u64>, rest: Seq<char>)
    requires
        rest.len() >= 1 && rest[0] == '}',
    ensures
        parse_expiry(render_expiry(e) + rest) == Some((e, rest)),
{
    let s = render_expiry(e) + rest;
    match e {
        None => {
            lemma_prefix(tok_null(), rest);
        },
        Some(n) => {
            crate::digits::lemma_dec_digits_wf(n as nat);
            assert(s[0] == dec_digits(n as nat)[0]);
            assert(is_digit(s[0]));
            assert(!starts_with(s, tok_null())) by {
                if starts_with(s, tok_null()) {
                    assert(s.take(4)[0] == s[0]);
                    assert(s[0] == 'n');
                }
            }
            lemma_parse_number_round_trip(n, rest);
        },
    }
}

/// Round trip for records.
pub proof fn lemma_parse_rec_round_trip(r: Rec, rest: Seq<char>)
    ensures
        parse_rec(render_rec(r) + rest) == Some((r, rest)),
{
    let exp = render_expiry(r.expires_at);
    let s = render_rec(r) + rest;
    let after_brace = tok_value() + (quote(r.value) + (tok_expires() + (exp + (seq!['}'] + rest))));
    assert(s =~= seq!['{'] + after_brace);
    assert(s[0] == '{');
    lemma_prefix(seq!['{'], after_brace);
    assert(s.skip(1) == after_brace);
    lemma_prefix(tok_value(), quote(r.value) + (tok_expires() + (exp + (seq!['}'] + rest))));
    assert(starts_with(s.skip(1), tok_value()));
    assert(s.skip(1).skip(tok_value().len() as int) == quote(r.value) + (tok_expires() + (exp + (
    seq!['}'] + rest))));
    assert(s.skip(1).skip(tok_value().len() as int) =~= s.skip(1 + tok_value().len() as int));
    lemma_parse_quoted_round_trip(r.value, tok_expires() + (exp + (seq!['}'] + rest)));
    let t = tok_expires() + (exp + (seq!['}'] + rest));
    lemma_prefix(tok_expires(), exp + (seq!['}'] + rest));
    assert(starts_with(t, tok_expires()));
    assert(t.skip(tok_expires().len() as int) == exp + (seq!['}'] + rest));
    lemma_parse_expiry_round_trip(r.expires_at, seq!['}'] + rest);
    let u = seq!['}'] + rest;
    assert(u[0] == '}');
    assert(u.skip(1) =~= rest);
    assert(Rec { value: r.value, expires_at: r.expires_at } == r);
}

/// Round trip for entries.
pub proof fn lemma_parse_entry_round_trip(e: EntryModel, rest: Seq<char>)
    ensures
        parse_entry(render_entry(e) + rest) == Some((e, rest)),
{
    let s = render_entry(e) + rest;
    let t = seq![':'] + (render_rec(e.rec()) + rest);
    assert(s =~= quote(e.key) + t);
    lemma_parse_quoted_round_trip(e.key, t);
    assert(t[0] == ':');
    assert(t.skip(1) =~= render_rec(e.rec()) + rest);
    lemma_parse_rec_round_trip(e.rec(), rest);
    assert(EntryModel { key: e.key, value: e.rec().value, expires_at: e.rec().expires_at } == e);
}

/// A rendered entry is never empty.
pub proof fn lemma_render_entry_len(e: EntryModel)
    ensures
        render_entry(e).len() >= 1,
{
}

/// Round trip for non-empty entry lists followed by the closing `}`.
pub proof fn lemma_parse_entries_round_trip(es: Seq<EntryModel>, rest: Seq<char>)
    requires
        es.len() >= 1,
    ensures
        parse_entries(render_entries(es) + (seq!['}'] + rest)) == Some((es, rest)),
    decreases es.len(),
{
    let s = render_entries(es) + (seq!['}'] + rest);
    if es.len() == 1 {
        lemma_parse_entry_round_trip(es[0], seq!['}'] + rest);
        let t = seq!['}'] + rest;
        assert(t[0] == '}');
        assert(t.skip(1) =~= rest);
        assert(seq![es[0]] =~= es);
    } else {
        let tail = render_entries(es.drop_first()) + (seq!['}'] + rest);
        let t = seq![','] + tail;
        assert(s =~= render_entry(es[0]) + t);
        lemma_parse_entry_round_trip(es[0], t);
        assert(t[0] == ',');
        lemma_render_entry_len(es[0]);
        assert(t.len() < s.len());
        assert(t.skip(1) =~= tail);
        lemma_parse_entries_round_trip(es.drop_first(), rest);
        assert(seq![es[0]] + es.drop_first() =~= es);
    }
}

/// Round trip for whole stores: parsing a rendered store yields exactly the
/// entries that were rendered.
pub proof fn lemma_parse_store_round_trip(es: Seq<EntryModel>)
    ensures
        parse_store(render_store(es)) == Some(es),
{
    let s = render_store(es);
    assert(s[0] == '{');
    if es.len() == 0 {
        assert(render_entries(es) =~= Seq::<char>::empty());
        assert(s =~= seq!['{', '}']);
        assert(Seq::<EntryModel>::empty() =~= es);
    } else {
        assert(render_entry(es[0])[0] == quote(es[0].key)[0]);
        assert(render_entries(es)[0] == render_entry(es[0])[0]);
        assert(s[1] == render_entries(es)[0]);
        assert(s[1] == '"');
        assert(!(s.len() == 2 && s[1] == '}'));
        assert(s.skip(1) =~= render_entries(es) + (seq!['}'] + Seq::<char>::empty()));
        lemma_parse_entries_round_trip(es, Seq::empty());
    }
}

} // verus!

verus! {

/// Appends the text `"value":` onto `out`.
fn push_tok_value(out: &mut Vec<char>)
    ensures
        final(out)@ == old(out)@ + tok_value(),
{
    out.push('"');
    out.push('v');
    out.push('a');
    out.push('l');
    out.push('u');
    out.push('e');
    out.push('"');
    out.push(':');
    assert(out@ =~= old(out)@ + tok_value());
}

/// Appends the text `,"expires_at":` onto `out`.
fn push_tok_expires(out: &mut Vec<char>)
    ensures
        final(out)@ == old(out)@ + tok_expires(),
{
    out.push(',');
    out.push('"');
    out.push('e');
    out.push('x');
    out.push('p');
    out.push('i');
    out.push('r');
    out.push('e');
    out.push('s');
    out.push('_');
    out.push('a');
    out.push('t');
    out.push('"');
    out.push(':');
    assert(out@ =~= old(out)@ + tok_expires());
}

/// Appends a rendered expiry onto `out`.
fn push_expiry(out: &mut Vec<char>, e: Option<u64>)
    ensures
        final(out)@ == old(out)@ + render_expiry(e),
{
    match e {
        Some(n) => crate::digits::push_dec_digits(out, n),
        None => {
            out.push('n');
            out.push('u');
            out.push('l');
            out.push('l');
            assert(out@ =~= old(out)@ + tok_null());
        },
    }
}

/// Appends the rendered form of one entry onto `out`.
fn push_entry(out: &mut Vec<char>, e: &Entry)
    ensures
        final(out)@ == old(out)@ + render_entry(e@),
{
    let key_chars = crate::text::str_chars(e.key.as_str());
    let value_chars = crate::text::str_chars(e.value.as_str());
    crate::escape::push_quoted(out, &key_chars);
    out.push(':');
    out.push('{');
    push_tok_value(out);
    crate::escape::push_quoted(out, &value_chars);
    push_tok_expires(out);
    push_expiry(out, e.expires_at);
    out.push('}');
    assert(out@ =~= old(out)@ + render_entry(e@));
}

/// Appends the rendered forms of `entries[i..]`, comma-separated, onto `out`.
fn push_entries_from(out: &mut Vec<char>, entries: &Vec<Entry>, i: usize)
    requires
        i < entries.len(),
    ensures
        final(out)@ == old(out)@ + render_entries(seq_views(entries@).skip(i as int)),
    decreases entries.len() - i,
{
    let ghost es = seq_views(entries@).skip(i as int);
    push_entry(out, &entries[i]);
    proof {
        assert(es[0] == entries@[i as int]@);
    }
    if i + 1 < entries.len() {
        out.push(',');
        push_entries_from(out, entries, i + 1);
        proof {
            assert(es.drop_first() =~= seq_views(entries@).skip(i as int + 1));
            assert(out@ =~= old(out)@ + render_entries(es));
        }
    } else {
        proof {
            assert(es.len() == 1);
        }
    }
}

/// The whole store, rendered as [`render_store`] describes.
pub fn render_store_text(entries: &Vec<Entry>) -> (r: Vec<char>)
    ensures
        r@ == render_store(seq_views(entries@)),
{
    let mut out: Vec<char> = Vec::new();
    out.push('{');
    if entries.len() > 0 {
        push_entries_from(&mut out, entries, 0);
        proof {
            assert(seq_views(entries@).skip(0) =~= seq_views(entries@));
        }
    }
    out.push('}');
    assert(out@ =~= render_store(seq_views(entries@)));
    out
}

/// Whether the text `tok` occurs at position `i` of `s`.
fn starts_with_at(s: &Vec<char>, i: usize, tok: &Vec<char>) -> (b: bool)
    requires
        i <= s.len(),
    ensures
        b == starts_with(s@.skip(i as int), tok@),
{
    if s.len() - i < tok.len() {
        return false;
    }
    for m in 0..tok.len()
        invariant
            i <= s.len(),
            i + tok.len() <= s.len(),
            forall|q: int| 0 <= q < m ==> s@[i + q] == tok@[q],
    {
        if s[i + m] != tok[m] {
            proof {
                assert(s@.skip(i as int).take(tok@.len() as int)[m as int] == s@[i + m]);
            }
            return false;
        }
    }
    proof {
        assert(s@.skip(i as int).take(tok@.len() as int) =~= tok@);
    }
    true
}

/// Parses an expiry at position `i` of `s`, as [`parse_expiry`] describes on
/// the remaining characters.
fn parse_expiry_at(s: &Vec<char>, i: usize) -> (r: Option<(Option<u64>, usize)>)
    requires
        i <= s.len(),
    ensures
        match r {
            Some(p) => {
                &&& i <= p.1 <= s@.len()
                &&& parse_expiry(s@.skip(i as int)) == Some((p.0, s@.skip(p.1 as int)))
            },
            None => parse_expiry(s@.skip(i as int)) is None,
        },
{
    let null_tok = vec!['n', 'u', 'l', 'l'];
    assert(null_tok@ =~= tok_null());
    if starts_with_at(s, i, &null_tok) {
        proof {
            assert(s@.skip(i as int).skip(4) =~= s@.skip(i as int + 4));
        }
        Some((None, i + 4))
    } else {
        match crate::digits::parse_number_at(s, i) {
            Some(p) => Some((Some(p.0), p.1)),
            None => None,
        }
    }
}

/// Parses one record at position `i` of `s`, as [`parse_rec`] describes on
/// the remaining characters; yields the payload characters, the expiry, and
/// the first unconsumed position.
fn parse_rec_at(s: &Vec<char>, i: usize) -> (r: Option<(Vec<char>, Option<u64>, usize)>)
    requires
        i <= s.len(),
    ensures
        match r {
            Some(p) => {
                &&& i <= p.2 <= s@.len()
                &&& parse_rec(s@.skip(i as int)) == Some(
                    (Rec { value: p.0@, expires_at: p.1 }, s@.skip(p.2 as int)),
                )
            },
            None => parse_rec(s@.skip(i as int)) is None,
        },
{
    let ghost t = s@.skip(i as int);
    if i == s.len() || s[i] != '{' {
        return None;
    }
    proof {
        assert(t[0] == s@[i as int]);
        assert(t.skip(1) =~= s@.skip(i as int + 1));
    }
    let value_tok = vec!['"', 'v', 'a', 'l', 'u', 'e', '"', ':'];
    assert(value_tok@ =~= tok_value());
    if !starts_with_at(s, i + 1, &value_tok) {
        return None;
    }
    proof {
        assert(t.skip(1 + tok_value().len() as int) =~= s@.skip(i as int + 9));
    }
    let (value_chars, after_value) = match crate::escape::parse_quoted_at(s, i + 9) {
        Some(p) => p,
        None => {
            return None;
        },
    };
    let expires_tok = vec![',', '"', 'e', 'x', 'p', 'i', 'r', 'e', 's', '_', 'a', 't', '"', ':'];
    assert(expires_tok@ =~= tok_expires());
    if !starts_with_at(s, after_value, &expires_tok) {
        return None;
    }
    proof {
        assert(s@.skip(after_value as int).skip(tok_expires().len() as int) =~= s@.skip(
            after_value as int + 14,
        ));
    }
    let (expiry, after_expiry) = match parse_expiry_at(s, after_value + 14) {
        Some(p) => p,
        None => {
            return None;
        },
    };
    if after_expiry == s.len() || s[after_expiry] != '}' {
        proof {
            if after_expiry < s@.len() {
                assert(s@.skip(after_expiry as int)[0] == s@[after_expiry as int]);
            }
        }
        return None;
    }
    proof {
        assert(s@.skip(after_expiry as int)[0] == s@[after_expiry as int]);
        assert(s@.skip(after_expiry as int).skip(1) =~= s@.skip(after_expiry as int + 1));
    }
    Some((value_chars, expiry, after_expiry + 1))
}

/// Parses one entry at position `i` of `s`, as [`parse_entry`] describes on
/// the remaining characters.
fn parse_entry_at(s: &Vec<char>, i: usize) -> (r: Option<(Entry, usize)>)
    requires
        i <= s.len(),
    ensures
        match r {
            Some(p) => {
                &&& i < p.1 <= s@.len()
                &&& parse_entry(s@.skip(i as int)) == Some((p.0@, s@.skip(p.1 as int)))
            },
            None => parse_entry(s@.skip(i as int)) is None,
        },
{
    let (key_chars, after_key) = match crate::escape::parse_quoted_at(s, i) {
        Some(p) => p,
        None => {
            return None;
        },
    };
    if after_key == s.len() || s[after_key] != ':' {
        proof {
            if after_key < s@.len() {
                assert(s@.skip(after_key as int)[0] == s@[after_key as int]);
            }
        }
        return None;
    }
    proof {
        assert(s@.skip(after_key as int)[0] == s@[after_key as int]);
        assert(s@.skip(after_key as int).skip(1) =~= s@.skip(after_key as int + 1));
    }
    match parse_rec_at(s, after_key + 1) {
        Some((value_chars, expires_at, j)) => {
            let e = Entry {
                key: crate::text::chars_to_string(&key_chars),
                value: crate::text::chars_to_string(&value_chars),
                expires_at,
            };
            Some((e, j))
        },
        None => None,
    }
}

/// Parses entries at position `i` of `s` up to and including the closing
/// `}`, as [`parse_entries`] describes on the remaining characters.
fn parse_entries_at(s: &Vec<char>, i: usize) -> (r: Option<(Vec<Entry>, usize)>)
    requires
        i <= s.len(),
    ensures
        match r {
            Some(p) => {
                &&& i < p.1 <= s@.len()
                &&& parse_entries(s@.skip(i as int)) == Some(
                    (seq_views(p.0@), s@.skip(p.1 as int)),
                )
            },
            None => parse_entries(s@.skip(i as int)) is None,
        },
    decreases s@.len() - i,
{
    let (e, t) = match parse_entry_at(s, i) {
        Some(p) => p,
        None => {
            return None;
        },
    };
    if t == s.len() {
        return None;
    }
    proof {
        assert(s@.skip(t as int)[0] == s@[t as int]);
        assert(s@.skip(t as int).skip(1) =~= s@.skip(t as int + 1));
    }
    if s[t] == '}' {
        let mut out: Vec<Entry> = Vec::new();
        out.push(e);
        proof {
            assert(seq_views(out@) =~= seq![e@]);
        }
        return Some((out, t + 1));
    }
    if s[t] != ',' {
        return None;
    }
    match parse_entries_at(s, t + 1) {
        Some((mut rest_entries, j)) => {
            rest_entries.insert(0, e);
            proof {
                assert(seq_views(rest_entries@) =~= seq![e@] + seq_views(
                    rest_entries@.drop_first(),
                ));
            }
            Some((rest_entries, j))
        },
        None => None,
    }
}

/// Parses a whole store text, as [`parse_store`] describes: the parsed
/// entries, or nothing if the text is not a rendered store.
pub fn parse_store_text(s: &Vec<char>) -> (r: Option<Vec<Entry>>)
    ensures
        match r {
            Some(v) => parse_store(s@) == Some(seq_views(v@)),
            None => parse_store(s@) is None,
        },
{
    if s.len() == 0 || s[0] != '{' {
        return None;
    }
    if s.len() == 2 {
        if s[1] == '}' {
            let out: Vec<Entry> = Vec::new();
            proof {
                assert(seq_views(out@) =~= Seq::<EntryModel>::empty());
            }
            return Some(out);
        }
    }
    match parse_entries_at(s, 1) {
        Some((entries, j)) => {
            if j == s.len() {
                proof {
                    assert(s@.skip(j as int) =~= Seq::<char>::empty());
                }
                Some(entries)
            } else {
                None
            }
        },
        None => None,
    }
}

} // verus!
