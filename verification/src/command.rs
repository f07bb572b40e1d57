//! The shell's pure half: splitting an input line into parts, honoring
//! quotes and backslash escapes, and recognising a command in the parts.
//! Reading the line and printing the response stay with the caller.

use vstd::prelude::*;
use crate::digits::parse_number;

verus! {

/// The views of a list of strings.
pub open spec fn str_views(ss: Seq<String>) -> Seq<Seq<char>> {
    ss.map_values(|x: String| x@)
}

/// The tokenizer's state: finished parts, the part being built, and whether
/// the scan stands inside quotes or right after a backslash.
pub struct SplitState {
    pub parts: Seq<Seq<char>>,
    pub current: Seq<char>,
    pub in_quotes: bool,
    pub escaped: bool,
}

/// The tokenizer's starting state.
pub open spec fn split_init() -> SplitState {
    SplitState { parts: Seq::empty(), current: Seq::empty(), in_quotes: false, escaped: false }
}

/// One step of the tokenizer. A backslash arms an escape; an unescaped
/// quote toggles quoting and is kept; an unquoted space ends the part being
/// built; any other character joins it, with an armed escape kept as a
/// literal backslash before anything but a backslash.
pub open spec fn split_step(st: SplitState, c: char) -> SplitState {
    if c == '\\' && !st.escaped {
        SplitState { escaped: true, ..st }
    } else if (c == '\'' || c == '"') && !st.escaped {
        SplitState { in_quotes: !st.in_quotes, current: st.current.push(c), ..st }
    } else if c == ' ' && !st.in_quotes {
        if st.current.len() > 0 {
            SplitState { parts: st.parts.push(st.current), current: Seq::empty(), ..st }
        } else {
            st
        }
    } else {
        SplitState {
            current: if st.escaped && c != '\\' {
                st.current.push('\\').push(c)
            } else {
                st.current.push(c)
            },
            escaped: false,
            ..st
        }
    }
}

/// The tokenizer's state after scanning all of `s`.
pub open spec fn split_run(s: Seq<char>) -> SplitState
    decreases s.len(),
{
    if s.len() == 0 {
        split_init()
    } else {
        split_step(split_run(s.drop_last()), s.last())
    }
}

/// The parts of `s`: the finished parts, with an unfinished non-empty part
/// closed at the end.
pub open spec fn split_spec(s: Seq<char>) -> Seq<Seq<char>> {
    let st = split_run(s);
    if st.current.len() > 0 {
        st.parts.push(st.current)
    } else {
        st.parts
    }
}

/// No finished part is ever empty.
proof fn lemma_split_run_parts_nonempty(s: Seq<char>)
    ensures
        forall|q: int| 0 <= q < split_run(s).parts.len() ==> #[trigger] split_run(
            s,
        ).parts[q].len() > 0,
    decreases s.len(),
{
    if s.len() > 0 {
        lemma_split_run_parts_nonempty(s.drop_last());
        let prev = split_run(s.drop_last());
        assert forall|q: int| 0 <= q < split_run(s).parts.len() implies #[trigger] split_run(
            s,
        ).parts[q].len() > 0 by {
            if q < prev.parts.len() {
                assert(split_run(s).parts[q] == prev.parts[q]);
            } else {
                assert(split_run(s).parts[q] == prev.current);
            }
        }
    }
}

/// No part of a split line is empty.
pub proof fn lemma_split_parts_nonempty(s: Seq<char>)
    ensures
        forall|q: int| 0 <= q < split_spec(s).len() ==> #[trigger] split_spec(s)[q].len() > 0,
{
    lemma_split_run_parts_nonempty(s);
}

/// Splits an input line into parts, as [`split_spec`] describes: quotes
/// group words and are kept, a backslash escapes the character after it,
/// and unquoted spaces separate parts.
pub fn split_command(input: &str) -> (r: Vec<String>)
    ensures
        str_views(r@) == split_spec(input@),
        forall|q: int| 0 <= q < r@.len() ==> (#[trigger] r@[q])@.len() > 0,
{
    proof {
        lemma_split_parts_nonempty(input@);
    }
    let chars = crate::text::str_chars(input);
    let mut parts: Vec<String> = Vec::new();
    let mut current: Vec<char> = Vec::new();
    let mut in_quotes = false;
    let mut escaped = false;
    for i in 0..chars.len()
        invariant
            chars@ == input@,
            str_views(parts@) == split_run(input@.take(i as int)).parts,
            current@ == split_run(input@.take(i as int)).current,
            in_quotes == split_run(input@.take(i as int)).in_quotes,
            escaped == split_run(input@.take(i as int)).escaped,
    {
        proof {
            assert(input@.take(i as int + 1).drop_last() =~= input@.take(i as int));
            assert(input@.take(i as int + 1).last() == input@[i as int]);
        }
        let c = chars[i];
        if c == '\\' && !escaped {
            escaped = true;
        } else if (c == '\'' || c == '"') && !escaped {
            in_quotes = !in_quotes;
            current.push(c);
        } else if c == ' ' && !in_quotes {
            if current.len() > 0 {
                let ghost prev = parts@;
                parts.push(crate::text::chars_to_string(&current));
                current = Vec::new();
                proof {
                    assert(str_views(parts@) =~= str_views(prev).push(
                        split_run(input@.take(i as int)).current,
                    ));
                }
            }
        } else {
            if escaped && c != '\\' {
                current.push('\\');
            }
            current.push(c);
            escaped = false;
        }
        assert(str_views(parts@) =~= split_run(input@.take(i as int + 1)).parts);
    }
    proof {
        assert(input@.take(input@.len() as int) =~= input@);
    }
    if current.len() > 0 {
        let ghost prev = parts@;
        parts.push(crate::text::chars_to_string(&current));
        proof {
            assert(str_views(parts@) =~= str_views(prev).push(split_run(input@).current));
        }
    }
    proof {
        assert(str_views(parts@) == split_spec(input@));
        assert forall|q: int| 0 <= q < parts@.len() implies (#[trigger] parts@[q])@.len() > 0 by {
            assert(str_views(parts@)[q] == parts@[q]@);
            assert(split_spec(input@)[q].len() > 0);
        }
    }
    parts
}

/// A command of the line-oriented shell around the store.
pub enum Command {
    /// Look a key up.
    Get { key: String },
    /// The shell's `set`: insert or overwrite a key, with an optional ttl
    /// in seconds.
    Put { key: String, value: String, ttl: Option<u64> },
    /// Remove a key.
    Delete { key: String },
    /// List all live entries.
    List,
    /// Report the remaining ttl of a key.
    Ttl { key: String },
    /// Leave the shell.
    Exit,
    /// Show the command summary.
    Help,
    /// A `set` without key or value: its usage line should be shown.
    SetUsage,
    /// An empty line: nothing to do.
    Empty,
    /// Anything else: the command summary should be shown.
    Unknown,
}

/// The model of a command, over character sequences.
pub enum CommandModel {
    Get { key: Seq<char> },
    Put { key: Seq<char>, value: Seq<char>, ttl: Option<u64> },
    Delete { key: Seq<char> },
    List,
    Ttl { key: Seq<char> },
    Exit,
    Help,
    SetUsage,
    Empty,
    Unknown,
}

impl View for Command {
    type V = CommandModel;

    open spec fn view(&self) -> CommandModel {
        match self {
            Command::Get { key } => CommandModel::Get { key: key@ },
            Command::Put { key, value, ttl } => CommandModel::Put {
                key: key@,
                value: value@,
                ttl: *ttl,
            },
            Command::Delete { key } => CommandModel::Delete { key: key@ },
            Command::List => CommandModel::List,
            Command::Ttl { key } => CommandModel::Ttl { key: key@ },
            Command::Exit => CommandModel::Exit,
            Command::Help => CommandModel::Help,
            Command::SetUsage => CommandModel::SetUsage,
            Command::Empty => CommandModel::Empty,
            Command::Unknown => CommandModel::Unknown,
        }
    }
}

/// A whole string read as a decimal number: every character consumed.
pub open spec fn parse_u64_full(s: Seq<char>) -> Option<u64> {
    match parse_number(s) {
        Some(p) => if p.1.len() == 0 {
            Some(p.0)
        } else {
            None
        },
        None => None,
    }
}

/// The command the parts of a line stand for.
pub open spec fn spec_parse_command(ps: Seq<Seq<char>>) -> CommandModel {
    if ps.len() == 0 {
        CommandModel::Empty
    } else if ps[0] == "get"@ && ps.len() == 2 {
        CommandModel::Get { key: ps[1] }
    } else if ps[0] == "set"@ {
        if ps.len() >= 3 {
            CommandModel::Put {
                key: ps[1],
                value: ps[2],
                ttl: if ps.len() >= 5 && ps[3] == "--ttl"@ {
                    parse_u64_full(ps[4])
                } else {
                    None
                },
            }
        } else {
            CommandModel::SetUsage
        }
    } else if ps[0] == "delete"@ && ps.len() == 2 {
        CommandModel::Delete { key: ps[1] }
    } else if ps[0] == "list"@ && ps.len() == 1 {
        CommandModel::List
    } else if ps[0] == "ttl"@ && ps.len() == 2 {
        CommandModel::Ttl { key: ps[1] }
    } else if ps[0] == "exit"@ || ps[0] == "quit"@ {
        CommandModel::Exit
    } else if ps[0] == "help"@ {
        CommandModel::Help
    } else {
        CommandModel::Unknown
    }
}

/// Reads a whole string as a decimal number, as [`parse_u64_full`]
/// describes.
pub fn parse_u64_str(s: &str) -> (r: Option<u64>)
    ensures
        r == parse_u64_full(s@),
{
    let chars = crate::text::str_chars(s);
    proof {
        assert(chars@.skip(0) =~= s@);
    }
    match crate::digits::parse_number_at(&chars, 0) {
        Some((v, j)) => {
            if j == chars.len() {
                proof {
                    assert(chars@.skip(j as int) =~= Seq::<char>::empty());
                }
                Some(v)
            } else {
                proof {
                    assert(chars@.skip(j as int).len() > 0);
                }
                None
            }
        },
        None => None,
    }
}

/// Recognises the command the parts stand for, as [`spec_parse_command`]
/// describes.
pub fn parse_command(parts: &Vec<String>) -> (r: Command)
    ensures
        r@ == spec_parse_command(str_views(parts@)),
{
    let ghost ps = str_views(parts@);
    if parts.len() == 0 {
        return Command::Empty;
    }
    proof {
        assert(ps[0] == parts@[0]@);
    }
    let head = parts[0].as_str();
    if crate::text::str_eq(head, "get") && parts.len() == 2 {
        Command::Get { key: parts[1].clone() }
    } else if crate::text::str_eq(head, "set") {
        if parts.len() >= 3 {
            let ttl = if parts.len() >= 5 && crate::text::str_eq(parts[3].as_str(), "--ttl") {
                parse_u64_str(parts[4].as_str())
            } else {
                None
            };
            Command::Put { key: parts[1].clone(), value: parts[2].clone(), ttl }
        } else {
            Command::SetUsage
        }
    } else if crate::text::str_eq(head, "delete") && parts.len() == 2 {
        Command::Delete { key: parts[1].clone() }
    } else if crate::text::str_eq(head, "list") && parts.len() == 1 {
        Command::List
    } else if crate::text::str_eq(head, "ttl") && parts.len() == 2 {
        Command::Ttl { key: parts[1].clone() }
    } else if crate::text::str_eq(head, "exit") || crate::text::str_eq(head, "quit") {
        Command::Exit
    } else if crate::text::str_eq(head, "help") {
        Command::Help
    } else {
        Command::Unknown
    }
}


/// Parts joined by single spaces, the interactive shell's way of re-reading
/// a value that was split.
pub open spec fn join_spaces(ss: Seq<Seq<char>>) -> Seq<char>
    decreases ss.len(),
{
    if ss.len() == 0 {
        Seq::empty()
    } else if ss.len() == 1 {
        ss[0]
    } else {
        ss[0] + seq![' '] + join_spaces(ss.drop_first())
    }
}

/// Joining one more part appends a space and the part.
proof fn lemma_join_snoc(ss: Seq<Seq<char>>, x: Seq<char>)
    requires
        ss.len() >= 1,
    ensures
        join_spaces(ss.push(x)) == join_spaces(ss) + seq![' '] + x,
    decreases ss.len(),
{
    let p = ss.push(x);
    if ss.len() == 1 {
        assert(p.drop_first() =~= seq![x]);
        assert(p[0] == ss[0]);
        assert(join_spaces(seq![x]) == x);
    } else {
        lemma_join_snoc(ss.drop_first(), x);
        assert(p.drop_first() =~= ss.drop_first().push(x));
        assert(p[0] == ss[0]);
        assert(ss[0] + seq![' '] + (join_spaces(ss.drop_first()) + seq![' '] + x) =~= (ss[0]
            + seq![' '] + join_spaces(ss.drop_first())) + seq![' '] + x);
    }
}

/// Whether `c` is one of the quote characters the shell strips from a
/// value's ends.
pub open spec fn is_quote_char(c: char) -> bool {
    c == '\'' || c == '"'
}

/// The sequence with its trailing quote characters removed.
pub open spec fn trim_end_quotes(s: Seq<char>) -> Seq<char>
    decreases s.len(),
{
    if s.len() > 0 && is_quote_char(s.last()) {
        trim_end_quotes(s.drop_last())
    } else {
        s
    }
}

/// The sequence with quote characters removed from both ends.
pub open spec fn trim_quotes(s: Seq<char>) -> Seq<char>
    decreases s.len(),
{
    if s.len() > 0 && is_quote_char(s[0]) {
        trim_quotes(s.drop_first())
    } else {
        trim_end_quotes(s)
    }
}

/// Trimming the front passes over exactly the leading quote characters.
proof fn lemma_trim_front(s: Seq<char>, k: int)
    requires
        0 <= k <= s.len(),
        forall|m: int| 0 <= m < k ==> is_quote_char(#[trigger] s[m]),
        k == s.len() || !is_quote_char(s[k]),
    ensures
        trim_quotes(s) == trim_end_quotes(s.skip(k)),
    decreases k,
{
    if k == 0 {
        assert(s.skip(0) =~= s);
    } else {
        lemma_trim_front(s.drop_first(), k - 1);
        assert(s.drop_first().skip(k - 1) =~= s.skip(k));
    }
}

/// Trimming the end keeps exactly the characters before the trailing quote
/// characters.
proof fn lemma_trim_end(s: Seq<char>, e: int)
    requires
        0 <= e <= s.len(),
        forall|m: int| e <= m < s.len() ==> is_quote_char(#[trigger] s[m]),
        e == 0 || !is_quote_char(s[e - 1]),
    ensures
        trim_end_quotes(s) == s.take(e),
    decreases s.len(),
{
    if s.len() > e {
        lemma_trim_end(s.drop_last(), e);
        assert(s.drop_last().take(e) =~= s.take(e));
    } else {
        assert(s.take(e) =~= s);
    }
}

/// The key, value and ttl of an interactive `set` line, or nothing when key
/// or value is missing: the key is the second part; a final part that reads
/// as a whole number is the ttl; the remaining parts, joined by spaces and
/// with quote characters stripped from both ends, are the value.
pub open spec fn spec_assemble_set(ps: Seq<Seq<char>>) -> Option<
    (Seq<char>, Seq<char>, Option<u64>),
> {
    if ps.len() < 3 {
        None
    } else if ps.len() > 3 && parse_u64_full(ps.last()) is Some {
        Some(
            (
                ps[1],
                trim_quotes(join_spaces(ps.subrange(2, ps.len() - 1))),
                parse_u64_full(ps.last()),
            ),
        )
    } else {
        Some((ps[1], trim_quotes(join_spaces(ps.skip(2))), None))
    }
}

/// Joins `parts[from..to]` with single spaces.
fn join_parts(parts: &Vec<String>, from: usize, to: usize) -> (r: Vec<char>)
    requires
        from < to <= parts@.len(),
    ensures
        r@ == join_spaces(str_views(parts@).subrange(from as int, to as int)),
{
    let ghost ps = str_views(parts@);
    let mut out: Vec<char> = Vec::new();
    let mut first = crate::text::str_chars(parts[from].as_str());
    out.append(&mut first);
    proof {
        assert(ps.subrange(from as int, from as int + 1) =~= seq![ps[from as int]]);
        assert(out@ =~= join_spaces(ps.subrange(from as int, from as int + 1)));
    }
    let mut i = from + 1;
    while i < to
        invariant
            from < i <= to <= parts@.len(),
            ps == str_views(parts@),
            out@ == join_spaces(ps.subrange(from as int, i as int)),
        decreases to - i,
    {
        proof {
            lemma_join_snoc(ps.subrange(from as int, i as int), ps[i as int]);
            assert(ps.subrange(from as int, i as int).push(ps[i as int]) =~= ps.subrange(
                from as int,
                i as int + 1,
            ));
        }
        out.push(' ');
        let mut next = crate::text::str_chars(parts[i].as_str());
        out.append(&mut next);
        proof {
            assert(out@ =~= join_spaces(ps.subrange(from as int, i as int + 1)));
        }
        i = i + 1;
    }
    out
}

/// Whether `c` is one of the shell's quote characters, decided executably.
fn is_quote_char_exec(c: char) -> (r: bool)
    ensures
        r == is_quote_char(c),
{
    c == '\'' || c == '"'
}

/// Strips quote characters from both ends of `v`.
fn trim_quote_ends(v: &Vec<char>) -> (r: Vec<char>)
    ensures
        r@ == trim_quotes(v@),
{
    let mut start: usize = 0;
    while start < v.len() && is_quote_char_exec(v[start])
        invariant
            start <= v@.len(),
            forall|m: int| 0 <= m < start ==> is_quote_char(#[trigger] v@[m]),
        decreases v@.len() - start,
    {
        start = start + 1;
    }
    proof {
        lemma_trim_front(v@, start as int);
    }
    let mut end: usize = v.len();
    while end > start && is_quote_char_exec(v[end - 1])
        invariant
            start <= end <= v@.len(),
            forall|m: int| end <= m < v@.len() ==> is_quote_char(#[trigger] v@[m]),
        decreases end,
    {
        end = end - 1;
    }
    proof {
        assert forall|m: int| end <= m < v@.skip(start as int).len() + start implies is_quote_char(
            #[trigger] v@[m],
        ) by {}
        assert forall|m: int|
            end - start <= m < v@.skip(start as int).len() implies is_quote_char(
            #[trigger] v@.skip(start as int)[m],
        ) by {
            assert(v@.skip(start as int)[m] == v@[m + start]);
        }
        if end > start {
            assert(v@.skip(start as int)[end - start - 1] == v@[end - 1]);
        }
        lemma_trim_end(v@.skip(start as int), end - start);
    }
    let mut out: Vec<char> = Vec::new();
    let mut i = start;
    while i < end
        invariant
            start <= i <= end <= v@.len(),
            out@ == v@.subrange(start as int, i as int),
        decreases end - i,
    {
        out.push(v[i]);
        proof {
            assert(out@ =~= v@.subrange(start as int, i as int + 1));
        }
        i = i + 1;
    }
    proof {
        assert(v@.skip(start as int).take(end - start) =~= v@.subrange(start as int, end as int));
    }
    out
}

/// Reads an interactive `set` line's parts into key, value and ttl, as
/// [`spec_assemble_set`] describes.
pub fn assemble_set(parts: &Vec<String>) -> (r: Option<(String, String, Option<u64>)>)
    ensures
        match r {
            Some(t) => spec_assemble_set(str_views(parts@)) == Some((t.0@, t.1@, t.2)),
            None => parts@.len() < 3,
        },
{
    let ghost ps = str_views(parts@);
    if parts.len() < 3 {
        return None;
    }
    let key = parts[1].clone();
    let ttl = if parts.len() > 3 {
        parse_u64_str(parts[parts.len() - 1].as_str())
    } else {
        None
    };
    proof {
        assert(ps.last() == parts@[parts@.len() - 1]@);
    }
    let joined = match ttl {
        Some(_) => join_parts(parts, 2, parts.len() - 1),
        None => join_parts(parts, 2, parts.len()),
    };
    let value_chars = trim_quote_ends(&joined);
    let value = crate::text::chars_to_string(&value_chars);
    proof {
        assert(ps.subrange(2, ps.len() as int) =~= ps.skip(2));
    }
    Some((key, value, ttl))
}

} // verus!
