//! The snapshot record format and its codec.
//!
//! A snapshot is one line of text: the cache's records, oldest first, as
//! `[{"Key":"...","Value":"..."},...]`, where quotes and backslashes inside
//! keys and values are escaped with a backslash.  Rendering is deterministic,
//! and parsing rendered text yields exactly the rendered records.

use vstd::prelude::*;

use crate::cache::{view_of_entries, CacheEntry};
use crate::text::push_char;

verus! {

/// Why a snapshot record could not be read.
#[derive(Clone, Copy, Debug, PartialEq, Eq, Structural)]
pub enum SnapshotError {
    Malformed,
}

/// How one character is written inside a quoted string.
pub open spec fn esc_char(c: char) -> Seq<char> {
    if c == '"' || c == '\\' {
        seq!['\\', c]
    } else {
        seq![c]
    }
}

/// A string's characters with quotes and backslashes escaped.
pub open spec fn esc(s: Seq<char>) -> Seq<char>
    decreases s.len(),
{
    if s.len() == 0 {
        Seq::<char>::empty()
    } else {
        esc(s.drop_last()) + esc_char(s.last())
    }
}

/// The opening text of one record, up to the key's first character.
pub open spec fn entry_open() -> Seq<char> {
    seq!['{', '"', 'K', 'e', 'y', '"', ':', '"']
}

/// The text between the key's last character and the value's first one.
pub open spec fn entry_mid() -> Seq<char> {
    seq!['"', ',', '"', 'V', 'a', 'l', 'u', 'e', '"', ':', '"']
}

/// The text closing one record.
pub open spec fn entry_close() -> Seq<char> {
    seq!['"', '}']
}

/// One record as text.
pub open spec fn entry_text(e: (Seq<char>, Seq<char>)) -> Seq<char> {
    entry_open() + esc(e.0) + entry_mid() + esc(e.1) + entry_close()
}

/// The records joined with commas.
pub open spec fn entries_text(s: Seq<(Seq<char>, Seq<char>)>) -> Seq<char>
    decreases s.len(),
{
    if s.len() == 0 {
        Seq::<char>::empty()
    } else if s.len() == 1 {
        entry_text(s[0])
    } else {
        entries_text(s.drop_last()) + seq![','] + entry_text(s.last())
    }
}

/// The complete snapshot record for the given contents (oldest first).
pub open spec fn snapshot_text(s: Seq<(Seq<char>, Seq<char>)>) -> Seq<char> {
    seq!['['] + entries_text(s) + seq![']']
}

/// Escaping can also be unfolded at the front.
proof fn lemma_esc_first(s: Seq<char>)
    requires
        s.len() > 0,
    ensures
        esc(s) == esc_char(s[0]) + esc(s.drop_first()),
    decreases s.len(),
{
    if s.len() == 1 {
        assert(s.drop_last() =~= Seq::<char>::empty());
        assert(s.drop_first() =~= Seq::<char>::empty());
        assert(esc(s) =~= esc_char(s[0]) + esc(s.drop_first()));
    } else {
        lemma_esc_first(s.drop_last());
        assert(s.drop_last().drop_first() =~= s.drop_first().drop_last());
        assert(s.drop_first().last() == s.last());
        assert(s.drop_last()[0] == s[0]);
        assert(esc(s) =~= esc_char(s[0]) + esc(s.drop_first()));
    }
}

/// Escaping one more character extends the escaped text at the end.
proof fn lemma_esc_take_step(s: Seq<char>, i: int)
    requires
        0 <= i < s.len(),
    ensures
        esc(s.take(i + 1)) == esc(s.take(i)) + esc_char(s[i]),
{
    assert(s.take(i + 1).drop_last() =~= s.take(i));
    assert(s.take(i + 1).last() == s[i]);
}

/// Joining one more record extends the joined text at the end.
proof fn lemma_entries_text_step(s: Seq<(Seq<char>, Seq<char>)>, i: int)
    requires
        0 <= i < s.len(),
    ensures
        i == 0 ==> entries_text(s.take(1)) == entry_text(s[0]),
        i > 0 ==> entries_text(s.take(i + 1)) == entries_text(s.take(i)) + seq![','] + entry_text(
            s[i],
        ),
{
    if i == 0 {
        assert(s.take(1)[0] == s[0]);
    } else {
        assert(s.take(i + 1).drop_last() =~= s.take(i));
        assert(s.take(i + 1).last() == s[i]);
    }
}

/// Appends `esc(s@)` to `out`.
#[verifier::loop_isolation(false)]
fn append_escaped(out: &mut String, s: &str)
    ensures
        final(out)@ == old(out)@ + esc(s@),
{
    let n = s.unicode_len();
    let mut i: usize = 0;
    while i < n
        invariant
            i <= n,
            out@ == old(out)@ + esc(s@.take(i as int)),
        decreases n - i,
    {
        let c = s.get_char(i);
        if c == '"' || c == '\\' {
            push_char(out, '\\');
        }
        push_char(out, c);
        proof {
            lemma_esc_take_step(s@, i as int);
            assert(out@ =~= old(out)@ + esc(s@.take(i as int + 1)));
        }
        i += 1;
    }
    proof {
        assert(s@.take(n as int) =~= s@);
    }
}

/// Appends `entry_text(e@)` to `out`.
fn append_entry(out: &mut String, e: &CacheEntry)
    ensures
        final(out)@ == old(out)@ + entry_text(e@),
{
    push_char(out, '{');
    push_char(out, '"');
    push_char(out, 'K');
    push_char(out, 'e');
    push_char(out, 'y');
    push_char(out, '"');
    push_char(out, ':');
    push_char(out, '"');
    proof {
        assert(out@ =~= old(out)@ + entry_open());
    }
    append_escaped(out, e.key.as_str());
    push_char(out, '"');
    push_char(out, ',');
    push_char(out, '"');
    push_char(out, 'V');
    push_char(out, 'a');
    push_char(out, 'l');
    push_char(out, 'u');
    push_char(out, 'e');
    push_char(out, '"');
    push_char(out, ':');
    push_char(out, '"');
    proof {
        assert(out@ =~= old(out)@ + entry_open() + esc(e.key@) + entry_mid());
    }
    append_escaped(out, e.value.as_str());
    push_char(out, '"');
    push_char(out, '}');
    proof {
        assert(out@ =~= old(out)@ + entry_text(e@));
    }
}

/// Renders the given records (oldest first) as a snapshot record.
#[verifier::loop_isolation(false)]
pub fn encode_snapshot(entries: &Vec<CacheEntry>) -> (r: String)
    ensures
        r@ == snapshot_text(view_of_entries(entries@)),
{
    let ghost s = view_of_entries(entries@);
    let mut out = String::new();
    push_char(&mut out, '[');
    let n = entries.len();
    let mut i: usize = 0;
    while i < n
        invariant
            i <= n,
            out@ == seq!['['] + entries_text(s.take(i as int)),
        decreases n - i,
    {
        if i > 0 {
            push_char(&mut out, ',');
        }
        append_entry(&mut out, &entries[i]);
        proof {
            assert(entries@[i as int]@ == s[i as int]);
            lemma_entries_text_step(s, i as int);
            if i == 0 {
                assert(entries_text(s.take(0)) =~= Seq::<char>::empty());
                assert(out@ =~= seq!['['] + entries_text(s.take(1)));
            } else {
                assert(out@ =~= seq!['['] + entries_text(s.take(i as int + 1)));
            }
        }
        i += 1;
    }
    push_char(&mut out, ']');
    proof {
        assert(s.take(n as int) =~= s);
        assert(out@ =~= snapshot_text(s));
    }
    out
}

/// Parsing an escaped string body starting at `i`: the characters read and
/// the position just past the closing quote.
pub open spec fn parse_string_body(t: Seq<char>, i: int) -> Option<(Seq<char>, int)>
    decreases t.len() - i,
{
    if i < 0 || i >= t.len() {
        None
    } else if t[i] == '"' {
        Some((Seq::<char>::empty(), i + 1))
    } else if t[i] == '\\' {
        if i + 1 < t.len() && (t[i + 1] == '"' || t[i + 1] == '\\') {
            match parse_string_body(t, i + 2) {
                Some(p) => Some((seq![t[i + 1]] + p.0, p.1)),
                None => None,
            }
        } else {
            None
        }
    } else {
        match parse_string_body(t, i + 1) {
            Some(p) => Some((seq![t[i]] + p.0, p.1)),
            None => None,
        }
    }
}

/// A parsed string body ends strictly past where it began and within the
/// text.
pub proof fn lemma_parse_string_body_bounds(t: Seq<char>, i: int)
    requires
        parse_string_body(t, i) is Some,
    ensures
        i < parse_string_body(t, i)->Some_0.1 <= t.len(),
    decreases t.len() - i,
{
    if t[i] == '"' {
    } else if t[i] == '\\' {
        lemma_parse_string_body_bounds(t, i + 2);
    } else {
        lemma_parse_string_body_bounds(t, i + 1);
    }
}

/// One record starting at `i`: its key/value pair and the position just past
/// the closing brace.
pub open spec fn parse_entry(t: Seq<char>, i: int) -> Option<((Seq<char>, Seq<char>), int)> {
    if 0 <= i && i + 8 <= t.len() && t.subrange(i, i + 8) == entry_open() {
        match parse_string_body(t, i + 8) {
            Some((k, j)) => {
                if j + 10 <= t.len() && t.subrange(j, j + 10) == entry_mid().drop_first() {
                    match parse_string_body(t, j + 10) {
                        Some((v, m)) => {
                            if m < t.len() && t[m] == '}' {
                                Some(((k, v), m + 1))
                            } else {
                                None
                            }
                        },
                        None => None,
                    }
                } else {
                    None
                }
            },
            None => None,
        }
    } else {
        None
    }
}

/// A parsed record ends strictly past where it began and within the text.
pub proof fn lemma_parse_entry_bounds(t: Seq<char>, i: int)
    requires
        parse_entry(t, i) is Some,
    ensures
        i < parse_entry(t, i)->Some_0.1 <= t.len(),
{
    lemma_parse_string_body_bounds(t, i + 8);
    let j = parse_string_body(t, i + 8)->Some_0.1;
    lemma_parse_string_body_bounds(t, j + 10);
}

/// The records from position `i` up to a closing bracket that must stand at
/// the very end of the text.
pub open spec fn parse_entries(t: Seq<char>, i: int) -> Option<Seq<(Seq<char>, Seq<char>)>>
    decreases t.len() - i,
        via parse_entries_decreases
{
    match parse_entry(t, i) {
        Some((e, j)) => {
            if j < t.len() && t[j] == ',' {
                match parse_entries(t, j + 1) {
                    Some(rest) => Some(seq![e] + rest),
                    None => None,
                }
            } else if j == t.len() - 1 && t[j] == ']' {
                Some(seq![e])
            } else {
                None
            }
        },
        None => None,
    }
}

#[via_fn]
proof fn parse_entries_decreases(t: Seq<char>, i: int) {
    match parse_entry(t, i) {
        Some((e, j)) => {
            lemma_parse_entry_bounds(t, i);
        },
        None => {},
    }
}

/// The contents encoded by a complete snapshot record, if it is well formed.
pub open spec fn spec_parse(t: Seq<char>) -> Option<Seq<(Seq<char>, Seq<char>)>> {
    if t.len() >= 2 && t[0] == '[' {
        if t.len() == 2 && t[1] == ']' {
            Some(Seq::<(Seq<char>, Seq<char>)>::empty())
        } else {
            parse_entries(t, 1)
        }
    } else {
        None
    }
}

/// Does `pat` stand in `t` at position `i`?
#[verifier::loop_isolation(false)]
fn expect(t: &str, i: usize, pat: &str) -> (r: bool)
    ensures
        r == (i + pat@.len() <= t@.len() && t@.subrange(i as int, i + pat@.len()) == pat@),
{
    let n = t.unicode_len();
    let m = pat.unicode_len();
    if i > n || m > n - i {
        return false;
    }
    let mut k: usize = 0;
    while k < m
        invariant
            k <= m,
            forall|j: int| 0 <= j < k ==> t@[i + j] == pat@[j],
        decreases m - k,
    {
        if t.get_char(i + k) != pat.get_char(k) {
            proof {
                let w = t@.subrange(i as int, i + pat@.len());
                if w == pat@ {
                    assert(w[k as int] == t@[i + k]);
                }
            }
            return false;
        }
        k += 1;
    }
    proof {
        assert(t@.subrange(i as int, i + pat@.len()) =~= pat@);
    }
    true
}

/// Parses an escaped string body at `i`, exactly as the specification does.
fn parse_string_body_exec(t: &str, i: usize) -> (r: Option<(String, usize)>)
    ensures
        match (r, parse_string_body(t@, i as int)) {
            (Some((s, j)), Some(p)) => s@ == p.0 && j == p.1,
            (None, None) => true,
            _ => false,
        },
    decreases t@.len() - i,
{
    let n = t.unicode_len();
    if i >= n {
        return None;
    }
    let c = t.get_char(i);
    if c == '"' {
        Some((String::new(), i + 1))
    } else if c == '\\' {
        if i + 1 < n {
            let c2 = t.get_char(i + 1);
            if c2 == '"' || c2 == '\\' {
                match parse_string_body_exec(t, i + 2) {
                    Some((rest, j)) => {
                        let mut out = String::new();
                        push_char(&mut out, c2);
                        out.append(rest.as_str());
                        proof {
                            assert(out@ =~= seq![t@[i + 1]] + rest@);
                        }
                        Some((out, j))
                    },
                    None => None,
                }
            } else {
                None
            }
        } else {
            None
        }
    } else {
        match parse_string_body_exec(t, i + 1) {
            Some((rest, j)) => {
                let mut out = String::new();
                push_char(&mut out, c);
                out.append(rest.as_str());
                proof {
                    assert(out@ =~= seq![t@[i as int]] + rest@);
                }
                Some((out, j))
            },
            None => None,
        }
    }
}

/// Parses one record at `i`, exactly as the specification does.
fn parse_entry_exec(t: &str, i: usize) -> (r: Option<(CacheEntry, usize)>)
    ensures
        match (r, parse_entry(t@, i as int)) {
            (Some((e, j)), Some(p)) => e@ == p.0 && j == p.1,
            (None, None) => true,
            _ => false,
        },
{
    proof {
        reveal_strlit("{\"Key\":\"");
        reveal_strlit(",\"Value\":\"");
        assert("{\"Key\":\""@ =~= entry_open());
        assert(",\"Value\":\""@ =~= entry_mid().drop_first());
    }
    let n = t.unicode_len();
    if !expect(t, i, "{\"Key\":\"") {
        return None;
    }
    let key_start = i + 8;
    match parse_string_body_exec(t, key_start) {
        None => None,
        Some((key, j)) => {
            proof {
                lemma_parse_string_body_bounds(t@, key_start as int);
            }
            if !expect(t, j, ",\"Value\":\"") {
                return None;
            }
            proof {
                assert(j + 10 <= n);
            }
            let value_start = j + 10;
            match parse_string_body_exec(t, value_start) {
                None => None,
                Some((value, m)) => {
                    proof {
                        lemma_parse_string_body_bounds(t@, value_start as int);
                    }
                    if m < n && t.get_char(m) == '}' {
                        Some((CacheEntry { key, value }, m + 1))
                    } else {
                        None
                    }
                },
            }
        },
    }
}

/// Parses the records from `i` to the closing bracket, exactly as the
/// specification does.
fn parse_entries_exec(t: &str, i: usize) -> (r: Option<Vec<CacheEntry>>)
    ensures
        match (r, parse_entries(t@, i as int)) {
            (Some(v), Some(s)) => view_of_entries(v@) == s,
            (None, None) => true,
            _ => false,
        },
    decreases t@.len() - i,
{
    match parse_entry_exec(t, i) {
        None => None,
        Some((e, j)) => {
            proof {
                lemma_parse_entry_bounds(t@, i as int);
            }
            let n = t.unicode_len();
            if j < n {
                if t.get_char(j) == ',' {
                    match parse_entries_exec(t, j + 1) {
                        Some(mut rest) => {
                            let ghost s = parse_entries(t@, i as int)->Some_0;
                            rest.insert(0, e);
                            proof {
                                assert(view_of_entries(rest@) =~= s);
                            }
                            Some(rest)
                        },
                        None => None,
                    }
                } else if j + 1 == n && t.get_char(j) == ']' {
                    let mut one: Vec<CacheEntry> = Vec::new();
                    one.push(e);
                    proof {
                        assert(view_of_entries(one@) =~= seq![e@]);
                    }
                    Some(one)
                } else {
                    None
                }
            } else {
                None
            }
        },
    }
}

/// Parses a snapshot record: the records it holds, oldest first, or an error
/// exactly when the text is malformed.
pub fn parse_snapshot(t: &str) -> (r: Result<Vec<CacheEntry>, SnapshotError>)
    ensures
        match (r, spec_parse(t@)) {
            (Ok(v), Some(s)) => view_of_entries(v@) == s,
            (Err(e), None) => e == SnapshotError::Malformed,
            _ => false,
        },
{
    let n = t.unicode_len();
    if n < 2 || t.get_char(0) != '[' {
        return Err(SnapshotError::Malformed);
    }
    if n == 2 {
        if t.get_char(1) == ']' {
            let empty: Vec<CacheEntry> = Vec::new();
            proof {
                assert(view_of_entries(empty@) =~= Seq::<(Seq<char>, Seq<char>)>::empty());
            }
            return Ok(empty);
        } else {
            return Err(SnapshotError::Malformed);
        }
    }
    match parse_entries_exec(t, 1) {
        Some(v) => Ok(v),
        None => Err(SnapshotError::Malformed),
    }
}

/// Escaped text followed by a closing quote parses back to exactly the text
/// that was escaped.
proof fn lemma_parse_escaped(t: Seq<char>, i: int, s: Seq<char>)
    requires
        0 <= i,
        i + esc(s).len() + 1 <= t.len(),
        t.subrange(i, i + esc(s).len() + 1) == esc(s) + seq!['"'],
    ensures
        parse_string_body(t, i) == Some((s, i + esc(s).len() + 1)),
    decreases s.len(),
{
    let w = esc(s) + seq!['"'];
    assert forall|x: int| 0 <= x < w.len() implies t[i + x] == w[x] by {
        assert(t.subrange(i, i + esc(s).len() + 1)[x] == t[i + x]);
    }
    if s.len() == 0 {
        assert(esc(s).len() == 0);
        assert(t[i + 0] == w[0]);
        assert(t[i] == '"');
    } else {
        lemma_esc_first(s);
        let c = s[0];
        let tail = s.drop_first();
        assert(esc(s) == esc_char(c) + esc(tail));
        if c == '"' || c == '\\' {
            assert(esc_char(c) == seq!['\\', c]);
            assert(esc(s)[0] == '\\');
            assert(esc(s)[1] == c);
            assert(esc(s).len() == 2 + esc(tail).len());
            assert(t[i + 0] == w[0]);
            assert(t[i] == '\\');
            assert(w[1] == esc(s)[1]);
            assert(t[i + 1] == c);
            assert(t.subrange(i + 2, i + 2 + esc(tail).len() + 1) =~= esc(tail) + seq!['"']) by {
                assert forall|x: int| 0 <= x < esc(tail).len() + 1 implies t.subrange(
                    i + 2,
                    i + 2 + esc(tail).len() + 1,
                )[x] == (esc(tail) + seq!['"'])[x] by {
                    assert(t[i + 2 + x] == w[2 + x]);
                    assert(w[2 + x] == (esc(tail) + seq!['"'])[x]);
                }
            }
            lemma_parse_escaped(t, i + 2, tail);
            assert(seq![t[i + 1]] + tail =~= s);
        } else {
            assert(esc_char(c) == seq![c]);
            assert(esc(s)[0] == c);
            assert(t[i + 0] == w[0]);
            assert(t[i] == c);
            assert(esc(s).len() == 1 + esc(tail).len());
            assert(t.subrange(i + 1, i + 1 + esc(tail).len() + 1) =~= esc(tail) + seq!['"']) by {
                assert forall|x: int| 0 <= x < esc(tail).len() + 1 implies t.subrange(
                    i + 1,
                    i + 1 + esc(tail).len() + 1,
                )[x] == (esc(tail) + seq!['"'])[x] by {
                    assert(t[i + 1 + x] == w[1 + x]);
                    assert(w[1 + x] == (esc(tail) + seq!['"'])[x]);
                }
            }
            lemma_parse_escaped(t, i + 1, tail);
            assert(seq![t[i]] + tail =~= s);
        }
    }
}

/// A rendered record parses back to exactly the record that was rendered.
proof fn lemma_parse_entry_at(t: Seq<char>, i: int, e: (Seq<char>, Seq<char>))
    requires
        0 <= i,
        i + entry_text(e).len() <= t.len(),
        t.subrange(i, i + entry_text(e).len()) == entry_text(e),
    ensures
        parse_entry(t, i) == Some((e, i + entry_text(e).len())),
{
    let w = entry_text(e);
    let ek = esc(e.0);
    let ev = esc(e.1);
    let j = i + 8 + ek.len() + 1;
    let m = j + 10 + ev.len() + 1;
    assert(w.len() == 21 + ek.len() + ev.len());
    assert forall|x: int| 0 <= x < w.len() implies t[i + x] == w[x] by {
        assert(t.subrange(i, i + w.len())[x] == t[i + x]);
    }
    assert(t.subrange(i, i + 8) =~= entry_open()) by {
        assert forall|x: int| 0 <= x < 8 implies t.subrange(i, i + 8)[x] == entry_open()[x] by {
            assert(t[i + x] == w[x]);
            assert(w[x] == entry_open()[x]);
        }
    }
    assert(t.subrange(i + 8, i + 8 + ek.len() + 1) =~= ek + seq!['"']) by {
        assert forall|x: int| 0 <= x < ek.len() + 1 implies t.subrange(
            i + 8,
            i + 8 + ek.len() + 1,
        )[x] == (ek + seq!['"'])[x] by {
            assert(t[i + 8 + x] == w[8 + x]);
            if x < ek.len() {
                assert(w[8 + x] == ek[x]);
            } else {
                assert(w[8 + x] == entry_mid()[0]);
            }
        }
    }
    lemma_parse_escaped(t, i + 8, e.0);
    assert(t.subrange(j, j + 10) =~= entry_mid().drop_first()) by {
        assert forall|x: int| 0 <= x < 10 implies t.subrange(j, j + 10)[x]
            == entry_mid().drop_first()[x] by {
            assert(t[j + x] == w[9 + ek.len() + x]);
            assert(w[9 + ek.len() + x] == entry_mid()[1 + x]);
        }
    }
    assert(t.subrange(j + 10, j + 10 + ev.len() + 1) =~= ev + seq!['"']) by {
        assert forall|x: int| 0 <= x < ev.len() + 1 implies t.subrange(
            j + 10,
            j + 10 + ev.len() + 1,
        )[x] == (ev + seq!['"'])[x] by {
            assert(t[j + 10 + x] == w[19 + ek.len() + x]);
            if x < ev.len() {
                assert(w[19 + ek.len() + x] == ev[x]);
            } else {
                assert(w[19 + ek.len() + x] == entry_close()[0]);
            }
        }
    }
    lemma_parse_escaped(t, j + 10, e.1);
    assert(t[m] == w[m - i]);
    assert(w[m - i] == entry_close()[1]);
    assert(t[m] == '}');
    assert(m + 1 == i + w.len());
    assert(e == (e.0, e.1));
}

/// The joined records can also be unfolded at the front.
proof fn lemma_entries_text_first(s: Seq<(Seq<char>, Seq<char>)>)
    requires
        s.len() >= 2,
    ensures
        entries_text(s) == entry_text(s[0]) + seq![','] + entries_text(s.drop_first()),
    decreases s.len(),
{
    if s.len() == 2 {
        assert(s.drop_last().len() == 1);
        assert(s.drop_last()[0] == s[0]);
        assert(s.drop_first().len() == 1);
        assert(s.drop_first()[0] == s[1]);
        assert(s.last() == s[1]);
        assert(entries_text(s.drop_last()) == entry_text(s.drop_last()[0]));
        assert(entries_text(s.drop_first()) == entry_text(s.drop_first()[0]));
        assert(entries_text(s) =~= entry_text(s[0]) + seq![','] + entries_text(s.drop_first()));
    } else {
        lemma_entries_text_first(s.drop_last());
        assert(s.drop_last().drop_first() =~= s.drop_first().drop_last());
        assert(s.drop_first().last() == s.last());
        assert(s.drop_last()[0] == s[0]);
        assert(s.drop_first().len() >= 2);
        assert(entries_text(s.drop_first()) == entries_text(s.drop_first().drop_last()) + seq![
            ',',
        ] + entry_text(s.drop_first().last()));
        assert(entries_text(s) =~= entry_text(s[0]) + seq![','] + entries_text(s.drop_first()));
    }
}

/// Joined records are never empty text.
proof fn lemma_entries_text_len(s: Seq<(Seq<char>, Seq<char>)>)
    requires
        s.len() >= 1,
    ensures
        entries_text(s).len() >= 21,
    decreases s.len(),
{
    if s.len() == 1 {
        assert(entry_text(s[0]).len() >= 21);
    } else {
        lemma_entries_text_len(s.drop_last());
    }
}

/// Rendered records followed by the closing bracket parse back to exactly
/// the records that were rendered.
proof fn lemma_parse_entries_at(t: Seq<char>, i: int, s: Seq<(Seq<char>, Seq<char>)>)
    requires
        s.len() >= 1,
        0 <= i,
        i + entries_text(s).len() + 1 == t.len(),
        t.subrange(i, t.len() as int) == entries_text(s) + seq![']'],
    ensures
        parse_entries(t, i) == Some(s),
    decreases s.len(),
{
    let w = entries_text(s) + seq![']'];
    assert forall|x: int| 0 <= x < w.len() implies t[i + x] == w[x] by {
        assert(t.subrange(i, t.len() as int)[x] == t[i + x]);
    }
    if s.len() == 1 {
        let e = s[0];
        assert(entries_text(s) == entry_text(e));
        assert(t.subrange(i, i + entry_text(e).len()) =~= entry_text(e)) by {
            assert forall|x: int| 0 <= x < entry_text(e).len() implies t.subrange(
                i,
                i + entry_text(e).len(),
            )[x] == entry_text(e)[x] by {
                assert(t[i + x] == w[x]);
            }
        }
        lemma_parse_entry_at(t, i, e);
        let j = i + entry_text(e).len();
        assert(j == t.len() - 1);
        assert(t[j] == w[j - i]);
        assert(t[j] == ']');
        assert(seq![e] =~= s);
    } else {
        lemma_entries_text_first(s);
        let e = s[0];
        let rest = s.drop_first();
        let etl = entry_text(e).len() as int;
        assert(t.subrange(i, i + etl) =~= entry_text(e)) by {
            assert forall|x: int| 0 <= x < etl implies t.subrange(i, i + etl)[x]
                == entry_text(e)[x] by {
                assert(t[i + x] == w[x]);
                assert(w[x] == entry_text(e)[x]);
            }
        }
        lemma_parse_entry_at(t, i, e);
        let j = i + etl;
        assert(t[j] == w[etl]);
        assert(w[etl] == ',');
        lemma_entries_text_len(rest);
        assert(j < t.len());
        assert(t.subrange(j + 1, t.len() as int) =~= entries_text(rest) + seq![']']) by {
            assert forall|x: int| 0 <= x < entries_text(rest).len() + 1 implies t.subrange(
                j + 1,
                t.len() as int,
            )[x] == (entries_text(rest) + seq![']'])[x] by {
                assert(t[j + 1 + x] == w[etl + 1 + x]);
                assert(w[etl + 1 + x] == (entries_text(rest) + seq![']'])[x]);
            }
        }
        lemma_parse_entries_at(t, j + 1, rest);
        assert(seq![e] + rest =~= s);
    }
}

/// Round trip of the record format: any rendered snapshot record parses back
/// to exactly the contents that were rendered, in the same order.
pub proof fn lemma_snapshot_round_trip(s: Seq<(Seq<char>, Seq<char>)>)
    ensures
        spec_parse(snapshot_text(s)) == Some(s),
{
    let t = snapshot_text(s);
    assert(t[0] == '[');
    if s.len() == 0 {
        assert(entries_text(s) == Seq::<char>::empty());
        assert(t.len() == 2);
        assert(t[1] == ']');
        assert(Seq::<(Seq<char>, Seq<char>)>::empty() =~= s);
    } else {
        lemma_entries_text_len(s);
        assert(t.len() == 2 + entries_text(s).len());
        assert(t.subrange(1, t.len() as int) =~= entries_text(s) + seq![']']) by {
            assert forall|x: int| 0 <= x < entries_text(s).len() + 1 implies t.subrange(
                1,
                t.len() as int,
            )[x] == (entries_text(s) + seq![']'])[x] by {
                assert(t[1 + x] == (seq!['['] + entries_text(s) + seq![']'])[1 + x]);
            }
        }
        lemma_parse_entries_at(t, 1, s);
    }
}

} // verus!
