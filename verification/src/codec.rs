//! The file format of the store: a pretty-printed JSON array of task
//! objects. The exact text of a store is defined here, together with its
//! parser; encoding then parsing gives the store back.

use vstd::prelude::*;
use crate::numeral::{
    dec_digits, digits_end, is_digit, lemma_dec_digits_are_digits, lemma_dec_val_of_digits,
    lemma_digits_end_bounds, lemma_digits_end_skip, parse_number, push_dec, scan_number,
};
use crate::task::{Task, TaskView, seq_view};
use crate::text::{push_str_chars, str_chars, str_eq, string_of_chars};

verus! {

// ---------------------------------------------------------------------------
// The pieces of the format's text.
// ---------------------------------------------------------------------------

pub open spec fn arr_empty() -> Seq<char> {
    "[]"@
}

pub open spec fn arr_open() -> Seq<char> {
    "[\n"@
}

pub open spec fn arr_close() -> Seq<char> {
    "\n]"@
}

pub open spec fn item_sep() -> Seq<char> {
    ",\n"@
}

pub open spec fn obj_open() -> Seq<char> {
    "  {\n    \"id\": "@
}

pub open spec fn desc_key() -> Seq<char> {
    ",\n    \"description\": \""@
}

pub open spec fn desc_end() -> Seq<char> {
    "\""@
}

pub open spec fn comp_key() -> Seq<char> {
    ",\n    \"completed\": "@
}

pub open spec fn bool_text(b: bool) -> Seq<char> {
    if b {
        "true"@
    } else {
        "false"@
    }
}

pub open spec fn obj_close() -> Seq<char> {
    "\n  }"@
}

// ---------------------------------------------------------------------------
// String escaping.
// ---------------------------------------------------------------------------

/// The character for a hexadecimal digit value (`0 <= d <= 15`), lower case.
pub open spec fn hex_char(d: nat) -> char {
    if d < 10 {
        ((48 + d) as u8) as char
    } else {
        ((87 + d) as u8) as char
    }
}

pub open spec fn is_hex(c: char) -> bool {
    (48 <= c as int && c as int <= 57) || (97 <= c as int && c as int <= 102)
}

pub open spec fn hex_val(c: char) -> nat {
    if 48 <= c as int && c as int <= 57 {
        (c as int - 48) as nat
    } else {
        (c as int - 87) as nat
    }
}

/// How one character of a description stands in the file: the quote, the
/// backslash and the common control characters have two-character escapes,
/// the remaining control characters a `\u00..` escape, everything else
/// stands as itself.
pub open spec fn esc_char(c: char) -> Seq<char> {
    if c == '"' {
        seq!['\\', '"']
    } else if c == '\\' {
        seq!['\\', '\\']
    } else if c == '\n' {
        seq!['\\', 'n']
    } else if c == '\r' {
        seq!['\\', 'r']
    } else if c == '\t' {
        seq!['\\', 't']
    } else if 0 <= (c as int) && (c as int) < 32 {
        seq!['\\', 'u', '0', '0', hex_char((c as int / 16) as nat), hex_char((c as int % 16) as nat)]
    } else {
        seq![c]
    }
}

/// The escaped text of a description.
pub open spec fn esc_str(s: Seq<char>) -> Seq<char>
    decreases s.len(),
{
    if s.len() == 0 {
        Seq::empty()
    } else {
        esc_str(s.drop_last()) + esc_char(s.last())
    }
}

/// `esc_str` unfolded from the front.
pub proof fn lemma_esc_str_front(s: Seq<char>)
    requires
        s.len() > 0,
    ensures
        esc_str(s) == esc_char(s[0]) + esc_str(s.drop_first()),
    decreases s.len(),
{
    if s.len() == 1 {
        assert(s.drop_last() =~= Seq::<char>::empty());
        assert(s.drop_first() =~= Seq::<char>::empty());
        assert(esc_str(s) =~= esc_char(s[0]) + esc_str(s.drop_first()));
    } else {
        lemma_esc_str_front(s.drop_last());
        assert(s.drop_last()[0] == s[0]);
        assert(s.drop_last().drop_first() =~= s.drop_first().drop_last());
        assert(s.drop_first().last() == s.last());
        assert(esc_str(s) =~= esc_char(s[0]) + esc_str(s.drop_first()));
    }
}

// ---------------------------------------------------------------------------
// Encoding.
// ---------------------------------------------------------------------------

/// The text of one task object.
pub open spec fn encode_task(t: TaskView) -> Seq<char> {
    obj_open() + dec_digits(t.id) + desc_key() + esc_str(t.description) + desc_end() + comp_key()
        + bool_text(t.completed) + obj_close()
}

/// The text of one or more task objects, separated by `,\n`.
pub open spec fn encode_items(ts: Seq<TaskView>) -> Seq<char>
    recommends
        ts.len() >= 1,
    decreases ts.len(),
{
    if ts.len() <= 1 {
        encode_task(ts[0])
    } else {
        encode_task(ts[0]) + item_sep() + encode_items(ts.drop_first())
    }
}

/// The whole file text of a store.
pub open spec fn encode_tasks(ts: Seq<TaskView>) -> Seq<char> {
    if ts.len() == 0 {
        arr_empty()
    } else {
        arr_open() + encode_items(ts) + arr_close()
    }
}

/// Appends the escape of one character to `out`.
fn push_esc_char(out: &mut Vec<char>, c: char)
    ensures
        final(out)@ == old(out)@ + esc_char(c),
{
    if c == '"' {
        out.push('\\');
        out.push('"');
        proof {
            assert(out@ =~= old(out)@ + esc_char(c));
        }
    } else if c == '\\' {
        out.push('\\');
        out.push('\\');
        proof {
            assert(out@ =~= old(out)@ + esc_char(c));
        }
    } else if c == '\n' {
        out.push('\\');
        out.push('n');
        proof {
            assert(out@ =~= old(out)@ + esc_char(c));
        }
    } else if c == '\r' {
        out.push('\\');
        out.push('r');
        proof {
            assert(out@ =~= old(out)@ + esc_char(c));
        }
    } else if c == '\t' {
        out.push('\\');
        out.push('t');
        proof {
            assert(out@ =~= old(out)@ + esc_char(c));
        }
    } else if (c as u32) < 32 {
        let u = c as u32;
        out.push('\\');
        out.push('u');
        out.push('0');
        out.push('0');
        let hi = (u / 16) as u8;
        let lo = (u % 16) as u8;
        out.push((48 + hi) as char);
        if lo < 10 {
            out.push((48 + lo) as char);
        } else {
            out.push((87 + lo) as char);
        }
        proof {
            assert(hex_char((c as int / 16) as nat) == ((48 + hi) as char));
            assert(out@ =~= old(out)@ + esc_char(c));
        }
    } else {
        out.push(c);
        proof {
            assert(out@ =~= old(out)@ + esc_char(c));
        }
    }
}

/// Appends the escaped text of `s` to `out`.
fn push_esc_str(out: &mut Vec<char>, s: &str)
    ensures
        final(out)@ == old(out)@ + esc_str(s@),
{
    let cs = str_chars(s);
    let mut k: usize = 0;
    while k < cs.len()
        invariant
            k <= cs@.len(),
            cs@ == s@,
            out@ == old(out)@ + esc_str(cs@.subrange(0, k as int)),
        decreases cs@.len() - k,
    {
        push_esc_char(out, cs[k]);
        k = k + 1;
        proof {
            let p = cs@.subrange(0, k as int);
            assert(p.drop_last() =~= cs@.subrange(0, k as int - 1));
            assert(p.last() == cs@[k as int - 1]);
            assert(out@ =~= old(out)@ + esc_str(p));
        }
    }
    proof {
        assert(cs@.subrange(0, cs@.len() as int) =~= s@);
    }
}

/// Appends the text of the task object for `t` to `out`.
fn push_task(out: &mut Vec<char>, t: &Task)
    ensures
        final(out)@ == old(out)@ + encode_task(t@),
{
    push_str_chars(out, "  {\n    \"id\": ");
    push_dec(out, t.id);
    push_str_chars(out, ",\n    \"description\": \"");
    push_esc_str(out, t.description.as_str());
    push_str_chars(out, "\"");
    push_str_chars(out, ",\n    \"completed\": ");
    if t.completed {
        push_str_chars(out, "true");
    } else {
        push_str_chars(out, "false");
    }
    push_str_chars(out, "\n  }");
    proof {
        assert(out@ =~= old(out)@ + encode_task(t@));
    }
}

/// The file text for a store, pretty-printed.
pub fn encode_store(tasks: &Vec<Task>) -> (r: String)
    ensures
        r@ == encode_tasks(seq_view(tasks@)),
{
    if tasks.len() == 0 {
        let r = <String as vstd::string::StringExecFns>::from_str("[]");
        proof {
            assert(seq_view(tasks@) =~= Seq::<TaskView>::empty());
        }
        r
    } else {
        let mut out: Vec<char> = Vec::new();
        push_str_chars(&mut out, "[\n");
        let n = tasks.len();
        let ghost ts = seq_view(tasks@);
        let mut k: usize = 0;
        while k < n
            invariant
                k <= n,
                n == tasks@.len(),
                ts == seq_view(tasks@),
                n >= 1,
                k > 0 ==> out@ == arr_open() + encode_items(ts.subrange(0, k as int)),
                k == 0 ==> out@ == arr_open(),
            decreases n - k,
        {
            if k > 0 {
                push_str_chars(&mut out, ",\n");
            }
            push_task(&mut out, &tasks[k]);
            k = k + 1;
            proof {
                lemma_encode_items_snoc(ts, k as int);
            }
        }
        push_str_chars(&mut out, "\n]");
        proof {
            assert(ts.subrange(0, n as int) =~= ts);
            assert(out@ =~= encode_tasks(ts));
        }
        string_of_chars(&out)
    }
}

/// Appending one task to a non-empty item list appends a separator and its
/// object text.
proof fn lemma_encode_items_snoc(ts: Seq<TaskView>, k: int)
    requires
        1 <= k <= ts.len(),
    ensures
        k == 1 ==> encode_items(ts.subrange(0, k)) == encode_task(ts[0]),
        k > 1 ==> encode_items(ts.subrange(0, k)) == encode_items(ts.subrange(0, k - 1))
            + item_sep() + encode_task(ts[k - 1]),
    decreases k,
{
    if k == 1 {
        assert(ts.subrange(0, 1)[0] == ts[0]);
    } else {
        lemma_encode_items_snoc(ts.drop_first(), k - 1);
        assert(ts.drop_first().subrange(0, k - 1) =~= ts.subrange(0, k).drop_first());
        assert(ts.drop_first().subrange(0, k - 2) =~= ts.subrange(0, k - 1).drop_first());
        let p = ts.subrange(0, k);
        assert(p.len() > 1);
        assert(p[0] == ts[0]);
        assert(ts.subrange(0, k - 1)[0] == ts[0]);
        assert(encode_items(p) =~= encode_items(ts.subrange(0, k - 1)) + item_sep()
            + encode_task(ts[k - 1]));
    }
}

// ---------------------------------------------------------------------------
// Parsing: the grammar, read off the text.
// ---------------------------------------------------------------------------

/// Whether `p` stands in `s` at position `i`.
pub open spec fn matches_at(s: Seq<char>, i: int, p: Seq<char>) -> bool {
    0 <= i && i + p.len() <= s.len() && s.subrange(i, i + p.len()) == p
}

pub proof fn lemma_matches_split(s: Seq<char>, i: int, p: Seq<char>, q: Seq<char>)
    ensures
        matches_at(s, i, p + q) <==> (matches_at(s, i, p) && matches_at(s, i + p.len(), q)),
{
    if matches_at(s, i, p + q) {
        let w = s.subrange(i, i + p.len() + q.len());
        assert(s.subrange(i, i + p.len()) =~= w.subrange(0, p.len() as int));
        assert(w.subrange(0, p.len() as int) =~= p);
        assert(s.subrange(i + p.len(), i + p.len() + q.len()) =~= w.subrange(
            p.len() as int,
            w.len() as int,
        ));
        assert(w.subrange(p.len() as int, w.len() as int) =~= q);
    }
    if matches_at(s, i, p) && matches_at(s, i + p.len(), q) {
        assert(s.subrange(i, i + p.len() + q.len()) =~= p + q);
    }
}

/// The character an escape letter stands for.
pub open spec fn unesc(e: char) -> char {
    if e == '"' {
        '"'
    } else if e == '\\' {
        '\\'
    } else if e == 'n' {
        '\n'
    } else if e == 'r' {
        '\r'
    } else {
        '\t'
    }
}

/// A string body starting at `i`, up to and including its closing quote:
/// the described text and the position after the quote.
pub open spec fn parse_string(s: Seq<char>, i: int) -> Option<(Seq<char>, int)>
    decreases s.len() - i,
{
    if i < 0 || i >= s.len() {
        None
    } else if s[i] == '"' {
        Some((Seq::empty(), i + 1))
    } else if s[i] == '\\' {
        if i + 1 >= s.len() {
            None
        } else {
            let e = s[i + 1];
            if e == '"' || e == '\\' || e == 'n' || e == 'r' || e == 't' {
                match parse_string(s, i + 2) {
                    None => None,
                    Some((d, j)) => Some((seq![unesc(e)] + d, j)),
                }
            } else if e == 'u' {
                if i + 6 <= s.len() && s[i + 2] == '0' && s[i + 3] == '0' && is_hex(s[i + 4])
                    && is_hex(s[i + 5]) {
                    match parse_string(s, i + 6) {
                        None => None,
                        Some((d, j)) => Some(
                            (seq![((hex_val(s[i + 4]) * 16 + hex_val(s[i + 5])) as u8) as char] + d, j),
                        ),
                    }
                } else {
                    None
                }
            } else {
                None
            }
        }
    } else {
        match parse_string(s, i + 1) {
            None => None,
            Some((d, j)) => Some((seq![s[i]] + d, j)),
        }
    }
}

pub proof fn lemma_parse_string_bounds(s: Seq<char>, i: int)
    requires
        parse_string(s, i) is Some,
    ensures
        i < parse_string(s, i).unwrap().1 <= s.len(),
    decreases s.len() - i,
{
    if s[i] == '"' {
    } else if s[i] == '\\' {
        let e = s[i + 1];
        if e == '"' || e == '\\' || e == 'n' || e == 'r' || e == 't' {
            lemma_parse_string_bounds(s, i + 2);
        } else {
            lemma_parse_string_bounds(s, i + 6);
        }
    } else {
        lemma_parse_string_bounds(s, i + 1);
    }
}

/// One task object starting at `i`: its model and the position after it.
pub open spec fn parse_task(s: Seq<char>, i: int) -> Option<(TaskView, int)> {
    if !matches_at(s, i, obj_open()) {
        None
    } else {
        let i1 = i + obj_open().len();
        match parse_number(s, i1) {
            None => None,
            Some((id, i2)) => {
                if !matches_at(s, i2, desc_key()) {
                    None
                } else {
                    let i3 = i2 + desc_key().len();
                    match parse_string(s, i3) {
                        None => None,
                        Some((d, i4)) => {
                            if !matches_at(s, i4, comp_key()) {
                                None
                            } else {
                                let i5 = i4 + comp_key().len();
                                if matches_at(s, i5, "true"@) {
                                    let i6 = i5 + "true"@.len();
                                    if matches_at(s, i6, obj_close()) {
                                        Some(
                                            (TaskView { id, description: d, completed: true },
                                            i6 + obj_close().len()),
                                        )
                                    } else {
                                        None
                                    }
                                } else if matches_at(s, i5, "false"@) {
                                    let i6 = i5 + "false"@.len();
                                    if matches_at(s, i6, obj_close()) {
                                        Some(
                                            (TaskView { id, description: d, completed: false },
                                            i6 + obj_close().len()),
                                        )
                                    } else {
                                        None
                                    }
                                } else {
                                    None
                                }
                            }
                        },
                    }
                }
            },
        }
    }
}

/// One or more task objects from `i`, separated by `,\n` and closed by a
/// final `\n]` at the very end of the text.
pub open spec fn parse_items(s: Seq<char>, i: int) -> Option<Seq<TaskView>>
    decreases s.len() - i,
{
    match parse_task(s, i) {
        None => None,
        Some((t, j)) => {
            if j + arr_close().len() == s.len() && matches_at(s, j, arr_close()) {
                Some(seq![t])
            } else if i <= j && i < j + item_sep().len() && matches_at(s, j, item_sep()) {
                match parse_items(s, j + item_sep().len()) {
                    None => None,
                    Some(rest) => Some(seq![t] + rest),
                }
            } else {
                None
            }
        },
    }
}

/// The store described by a whole file text, if it is well formed.
pub open spec fn spec_parse(s: Seq<char>) -> Option<Seq<TaskView>> {
    if s == arr_empty() {
        Some(Seq::empty())
    } else if matches_at(s, 0, arr_open()) {
        parse_items(s, arr_open().len() as int)
    } else {
        None
    }
}

// ---------------------------------------------------------------------------
// The parser.
// ---------------------------------------------------------------------------

/// Whether `p` stands in `v` at position `i`.
fn m_at(v: &Vec<char>, i: usize, p: &str) -> (r: bool)
    ensures
        r == matches_at(v@, i as int, p@),
{
    let n = vstd::string::StrSliceExecFns::unicode_len(p);
    let vlen = v.len();
    if i > vlen || n > vlen - i {
        return false;
    }
    let mut k: usize = 0;
    while k < n
        invariant
            k <= n,
            n == p@.len(),
            vlen == v@.len(),
            i + n <= vlen,
            forall|m: int| 0 <= m < k ==> v@[i + m] == p@[m],
        decreases n - k,
    {
        if v[i + k] != vstd::string::StrSliceExecFns::get_char(p, k) {
            proof {
                assert(v@.subrange(i as int, i as int + p@.len())[k as int] != p@[k as int]);
            }
            return false;
        }
        k = k + 1;
    }
    proof {
        assert(v@.subrange(i as int, i as int + p@.len()) =~= p@);
    }
    true
}

/// The hexadecimal digit value of `c`, if it is one.
fn hex_of(c: char) -> (r: Option<u8>)
    ensures
        match r {
            Some(d) => is_hex(c) && d < 16 && d as nat == hex_val(c),
            None => !is_hex(c),
        },
{
    let u = c as u32;
    if 48 <= u && u <= 57 {
        Some((u - 48) as u8)
    } else if 97 <= u && u <= 102 {
        Some((u - 87) as u8)
    } else {
        None
    }
}

/// Reads a string body at `i`, up to and including its closing quote.
fn scan_string(v: &Vec<char>, i: usize) -> (r: Option<(Vec<char>, usize)>)
    requires
        i <= v@.len(),
    ensures
        match r {
            Some((d, j)) => parse_string(v@, i as int) == Some((d@, j as int)) && i < j
                <= v@.len(),
            None => parse_string(v@, i as int) is None,
        },
{
    let ghost s = v@;
    let vlen = v.len();
    let mut acc: Vec<char> = Vec::new();
    let mut k: usize = i;
    loop
        invariant
            i <= k <= s.len(),
            s == v@,
            vlen == v@.len(),
            parse_string(s, i as int) == (match parse_string(s, k as int) {
                Some((d, j)) => Some((acc@ + d, j)),
                None => None,
            }),
        decreases s.len() - k,
    {
        if k == vlen {
            return None;
        }
        let c = v[k];
        if c == '"' {
            proof {
                assert(acc@ + Seq::<char>::empty() =~= acc@);
            }
            return Some((acc, k + 1));
        } else if c == '\\' {
            if vlen - k == 1 {
                return None;
            }
            let e = v[k + 1];
            if e == '"' || e == '\\' || e == 'n' || e == 'r' || e == 't' {
                let u: char = if e == '"' {
                    '"'
                } else if e == '\\' {
                    '\\'
                } else if e == 'n' {
                    '\n'
                } else if e == 'r' {
                    '\r'
                } else {
                    '\t'
                };
                proof {
                    assert(u == unesc(e));
                    lemma_scan_step(s, i as int, k as int, acc@, seq![unesc(e)], k as int + 2);
                }
                acc.push(u);
                k = k + 2;
            } else if e == 'u' {
                if vlen - k < 6 || v[k + 2] != '0' || v[k + 3] != '0' {
                    return None;
                }
                let h1 = hex_of(v[k + 4]);
                let h2 = hex_of(v[k + 5]);
                match (h1, h2) {
                    (Some(hi), Some(lo)) => {
                        let u = ((hi as u32) * 16 + lo as u32) as u8 as char;
                        proof {
                            lemma_scan_step(
                                s,
                                i as int,
                                k as int,
                                acc@,
                                seq![((hex_val(s[k as int + 4]) * 16 + hex_val(s[k as int + 5])) as u8) as char],
                                k as int + 6,
                            );
                        }
                        acc.push(u);
                        k = k + 6;
                    },
                    _ => {
                        return None;
                    },
                }
            } else {
                return None;
            }
        } else {
            proof {
                lemma_scan_step(s, i as int, k as int, acc@, seq![s[k as int]], k as int + 1);
            }
            acc.push(c);
            k = k + 1;
        }
    }
}

/// One step of `scan_string`: when the text at `k` describes the single
/// character `piece` and continues at `k2`, the accumulator may take the
/// piece.
proof fn lemma_scan_step(s: Seq<char>, i: int, k: int, acc: Seq<char>, piece: Seq<char>, k2: int)
    requires
        parse_string(s, i) == (match parse_string(s, k) {
            Some((d, j)) => Some((acc + d, j)),
            None => None::<(Seq<char>, int)>,
        }),
        parse_string(s, k) == (match parse_string(s, k2) {
            Some((d, j)) => Some((piece + d, j)),
            None => None::<(Seq<char>, int)>,
        }),
    ensures
        parse_string(s, i) == (match parse_string(s, k2) {
            Some((d, j)) => Some(((acc + piece) + d, j)),
            None => None::<(Seq<char>, int)>,
        }),
{
    match parse_string(s, k2) {
        Some((d, j)) => {
            assert(acc + (piece + d) =~= (acc + piece) + d);
        },
        None => {},
    }
}

/// Reads one task object at `i`.
fn scan_task(v: &Vec<char>, i: usize) -> (r: Option<(Task, usize)>)
    requires
        i <= v@.len(),
    ensures
        match r {
            Some((t, j)) => parse_task(v@, i as int) == Some((t@, j as int)) && i < j <= v@.len(),
            None => parse_task(v@, i as int) is None,
        },
{
    let ghost s = v@;
    let vlen = v.len();
    if !m_at(v, i, "  {\n    \"id\": ") {
        return None;
    }
    let n1 = vstd::string::StrSliceExecFns::unicode_len("  {\n    \"id\": ");
    proof {
        assert(i + n1 <= vlen);
    }
    let i1 = i + n1;
    match scan_number(v, i1) {
        None => {
            return None;
        },
        Some((id, i2)) => {
            proof {
                lemma_digits_end_bounds(s, i1 as int);
            }
            if !m_at(v, i2, ",\n    \"description\": \"") {
                return None;
            }
            let n2 = vstd::string::StrSliceExecFns::unicode_len(",\n    \"description\": \"");
            proof {
                assert(i2 + n2 <= vlen);
            }
            let i3 = i2 + n2;
            match scan_string(v, i3) {
                None => {
                    return None;
                },
                Some((d, i4)) => {
                    if !m_at(v, i4, ",\n    \"completed\": ") {
                        return None;
                    }
                    let n3 = vstd::string::StrSliceExecFns::unicode_len(",\n    \"completed\": ");
                    proof {
                        assert(i4 + n3 <= vlen);
                    }
                    let i5 = i4 + n3;
                    let n_true = vstd::string::StrSliceExecFns::unicode_len("true");
                    let n_false = vstd::string::StrSliceExecFns::unicode_len("false");
                    let n_close = vstd::string::StrSliceExecFns::unicode_len("\n  }");
                    if m_at(v, i5, "true") {
                        proof {
                            assert(i5 + n_true <= vlen);
                        }
                        let i6 = i5 + n_true;
                        if m_at(v, i6, "\n  }") {
                            proof {
                                assert(i6 + n_close <= vlen);
                            }
                            let t = Task {
                                id,
                                description: string_of_chars(&d),
                                completed: true,
                            };
                            return Some((t, i6 + n_close));
                        }
                        return None;
                    }
                    if m_at(v, i5, "false") {
                        proof {
                            assert(i5 + n_false <= vlen);
                        }
                        let i6 = i5 + n_false;
                        if m_at(v, i6, "\n  }") {
                            proof {
                                assert(i6 + n_close <= vlen);
                            }
                            let t = Task {
                                id,
                                description: string_of_chars(&d),
                                completed: false,
                            };
                            return Some((t, i6 + n_close));
                        }
                        return None;
                    }
                    return None;
                },
            }
        },
    }
}

/// Reads the item list from `i` to the closing `\n]` at the text's end.
fn scan_items(v: &Vec<char>, i: usize) -> (r: Option<Vec<Task>>)
    requires
        i <= v@.len(),
    ensures
        match r {
            Some(ts) => parse_items(v@, i as int) == Some(seq_view(ts@)),
            None => parse_items(v@, i as int) is None,
        },
{
    let ghost s = v@;
    let vlen = v.len();
    let mut acc: Vec<Task> = Vec::new();
    let mut k: usize = i;
    loop
        invariant
            i <= k <= s.len(),
            s == v@,
            vlen == v@.len(),
            parse_items(s, i as int) == (match parse_items(s, k as int) {
                Some(rest) => Some(seq_view(acc@) + rest),
                None => None,
            }),
        decreases s.len() - k,
    {
        match scan_task(v, k) {
            None => {
                return None;
            },
            Some((t, j)) => {
                let n_close = vstd::string::StrSliceExecFns::unicode_len("\n]");
                let n_sep = vstd::string::StrSliceExecFns::unicode_len(",\n");
                if vlen - j == n_close && m_at(v, j, "\n]") {
                    acc.push(t);
                    proof {
                        assert(seq_view(acc@) =~= seq_view(acc@.drop_last()) + seq![t@]);
                        assert(seq_view(acc@.drop_last()) + seq![t@] + Seq::<TaskView>::empty()
                            =~= seq_view(acc@));
                        assert(parse_items(s, k as int) == Some(seq![t@]));
                        assert(seq_view(acc@.drop_last()) + seq![t@] =~= seq_view(acc@));
                    }
                    return Some(acc);
                }
                if m_at(v, j, ",\n") {
                    proof {
                        assert(j + n_sep <= vlen);
                        let rest2 = parse_items(s, j + item_sep().len());
                        match rest2 {
                            Some(r2) => {
                                assert(parse_items(s, k as int) == Some(seq![t@] + r2));
                                assert(seq_view(acc@.push(t)) =~= seq_view(acc@) + seq![t@]);
                                assert(seq_view(acc@) + (seq![t@] + r2) =~= (seq_view(acc@)
                                    + seq![t@]) + r2);
                            },
                            None => {
                                assert(parse_items(s, k as int) is None);
                            },
                        }
                    }
                    acc.push(t);
                    k = j + n_sep;
                } else {
                    return None;
                }
            },
        }
    }
}

/// The store read from a whole file text, if the text is well formed.
pub fn parse_store(text: &str) -> (r: Option<Vec<Task>>)
    ensures
        match r {
            Some(ts) => spec_parse(text@) == Some(seq_view(ts@)),
            None => spec_parse(text@) is None,
        },
{
    if str_eq(text, "[]") {
        let ts: Vec<Task> = Vec::new();
        proof {
            assert(seq_view(ts@) =~= Seq::<TaskView>::empty());
        }
        return Some(ts);
    }
    let v = str_chars(text);
    if m_at(&v, 0, "[\n") {
        let n_open = vstd::string::StrSliceExecFns::unicode_len("[\n");
        scan_items(&v, n_open)
    } else {
        None
    }
}

// ---------------------------------------------------------------------------
// The round trip: parsing an encoded store gives the store back.
// ---------------------------------------------------------------------------

proof fn lemma_matches_index(s: Seq<char>, i: int, p: Seq<char>, m: int)
    requires
        matches_at(s, i, p),
        0 <= m < p.len(),
    ensures
        s[i + m] == p[m],
{
    assert(s.subrange(i, i + p.len())[m] == s[i + m]);
}

proof fn lemma_hex_char_val(d: nat)
    requires
        d < 16,
    ensures
        is_hex(hex_char(d)),
        hex_val(hex_char(d)) == d,
{
}

/// An escaped description followed by its closing quote parses back to the
/// description, ending right after the quote.
proof fn lemma_parse_string_of_esc(s: Seq<char>, i: int, d: Seq<char>)
    requires
        0 <= i,
        matches_at(s, i, esc_str(d) + seq!['"']),
    ensures
        parse_string(s, i) == Some((d, i + esc_str(d).len() + 1)),
    decreases d.len(),
{
    if d.len() == 0 {
        assert(esc_str(d) + seq!['"'] =~= seq!['"']);
        lemma_matches_index(s, i, seq!['"'], 0);
        assert(s[i] == '"');
    } else {
        let c = d[0];
        lemma_esc_str_front(d);
        let e0 = esc_char(c);
        let rest = esc_str(d.drop_first()) + seq!['"'];
        assert(esc_str(d) + seq!['"'] =~= e0 + rest);
        lemma_matches_split(s, i, e0, rest);
        lemma_parse_string_of_esc(s, i + e0.len(), d.drop_first());
        assert(seq![c] + d.drop_first() =~= d);
        if c == '"' || c == '\\' || c == '\n' || c == '\r' || c == '\t' {
            lemma_matches_index(s, i, e0, 0);
            lemma_matches_index(s, i, e0, 1);
            assert(s[i] == '\\');
            let e = s[i + 1];
            assert(unesc(e) == c);
            assert(seq![unesc(e)] + d.drop_first() =~= d);
        } else if 0 <= (c as int) && (c as int) < 32 {
            lemma_matches_index(s, i, e0, 0);
            lemma_matches_index(s, i, e0, 1);
            lemma_matches_index(s, i, e0, 2);
            lemma_matches_index(s, i, e0, 3);
            lemma_matches_index(s, i, e0, 4);
            lemma_matches_index(s, i, e0, 5);
            let hi = (c as int / 16) as nat;
            let lo = (c as int % 16) as nat;
            assert(0 <= (c as int) && (c as int) < 32);
            assert((c as int) / 16 < 2 && 0 <= (c as int) % 16 && (c as int) % 16 < 16 && c as int
                == 16 * ((c as int) / 16) + ((c as int) % 16)) by (nonlinear_arith)
                requires 0 <= (c as int) && (c as int) < 32;
            lemma_hex_char_val(hi);
            lemma_hex_char_val(lo);
            assert(s[i] == '\\' && s[i + 1] == 'u' && s[i + 2] == '0' && s[i + 3] == '0');
            assert(s[i + 4] == hex_char(hi) && s[i + 5] == hex_char(lo));
            assert(hex_val(s[i + 4]) * 16 + hex_val(s[i + 5]) == c as int);
            assert((((hex_val(s[i + 4]) * 16 + hex_val(s[i + 5])) as u8) as char) == c);
            assert(seq![(((hex_val(s[i + 4]) * 16 + hex_val(s[i + 5])) as u8) as char)]
                + d.drop_first() =~= d);
        } else {
            lemma_matches_index(s, i, e0, 0);
            assert(s[i] == c);
            assert(seq![s[i]] + d.drop_first() =~= d);
        }
    }
}

/// The digits of `n`, followed by something that is no digit, parse back to
/// `n`.
proof fn lemma_parse_number_of_digits(s: Seq<char>, i: int, n: nat)
    requires
        0 <= i,
        n <= usize::MAX as nat,
        matches_at(s, i, dec_digits(n)),
        i + dec_digits(n).len() == s.len() || !is_digit(s[i + dec_digits(n).len()]),
    ensures
        parse_number(s, i) == Some((n, i + dec_digits(n).len())),
{
    let dd = dec_digits(n);
    let j = i + dd.len();
    lemma_dec_digits_are_digits(n);
    assert forall|m: int| i <= m < j implies is_digit(#[trigger] s[m]) by {
        lemma_matches_index(s, i, dd, m - i);
    }
    lemma_digits_end_skip(s, i, j);
    assert(digits_end(s, j) == j);
    assert(s.subrange(i, j) =~= dd);
    lemma_dec_val_of_digits(n);
}

/// An encoded task object parses back to the task, ending right after it.
proof fn lemma_parse_task_of_encode(s: Seq<char>, i: int, t: TaskView)
    requires
        0 <= i,
        t.id <= usize::MAX as nat,
        matches_at(s, i, encode_task(t)),
    ensures
        parse_task(s, i) == Some((t, i + encode_task(t).len())),
{
    reveal_strlit(",\n    \"description\": \"");
    reveal_strlit("\"");
    reveal_strlit("true");
    reveal_strlit("false");
    let dd = dec_digits(t.id);
    let es = esc_str(t.description);
    let bt = bool_text(t.completed);
    let p1 = obj_open();
    let p2 = p1 + dd;
    let p3 = p2 + desc_key();
    let p4 = p3 + es;
    let p5 = p4 + desc_end();
    let p6 = p5 + comp_key();
    let p7 = p6 + bt;
    assert(encode_task(t) =~= p7 + obj_close());
    lemma_matches_split(s, i, p7, obj_close());
    lemma_matches_split(s, i, p6, bt);
    lemma_matches_split(s, i, p5, comp_key());
    lemma_matches_split(s, i, p4, desc_end());
    lemma_matches_split(s, i, p3, es);
    lemma_matches_split(s, i, p2, desc_key());
    lemma_matches_split(s, i, p1, dd);
    let i1 = i + p1.len();
    let i2 = i1 + dd.len();
    let i3 = i2 + desc_key().len();
    let i4 = i3 + es.len() + 1;
    let i5 = i4 + comp_key().len();
    // The number: the character after its digits is the comma of the
    // description key, no digit.
    lemma_matches_index(s, i2, desc_key(), 0);
    assert(s[i2] == ',');
    lemma_parse_number_of_digits(s, i1, t.id);
    // The description: its escape, then the closing quote.
    assert(desc_end() =~= seq!['"']);
    lemma_matches_split(s, i3, es, seq!['"']);
    lemma_parse_string_of_esc(s, i3, t.description);
    // The completion flag: `true` and `false` differ in their first letter.
    if t.completed {
        let i6 = i5 + "true"@.len();
        assert(matches_at(s, i5, "true"@));
        assert(matches_at(s, i6, obj_close()));
        assert(parse_task(s, i) == Some((TaskView { id: t.id, description: t.description, completed: true }, i6 + obj_close().len())));
        assert(TaskView { id: t.id, description: t.description, completed: true } == t);
    } else {
        if matches_at(s, i5, "true"@) {
            lemma_matches_index(s, i5, "true"@, 0);
            lemma_matches_index(s, i5, "false"@, 0);
            assert(false);
        }
        let i6 = i5 + "false"@.len();
        assert(matches_at(s, i5, "false"@));
        assert(matches_at(s, i6, obj_close()));
        assert(parse_task(s, i) == Some((TaskView { id: t.id, description: t.description, completed: false }, i6 + obj_close().len())));
        assert(TaskView { id: t.id, description: t.description, completed: false } == t);
    }
}

/// An encoded item list, anchored at the text's end by `\n]`, parses back to
/// the items.
proof fn lemma_parse_items_of_encode(s: Seq<char>, i: int, ts: Seq<TaskView>)
    requires
        0 <= i,
        ts.len() >= 1,
        forall|k: int| 0 <= k < ts.len() ==> (#[trigger] ts[k]).id <= usize::MAX as nat,
        matches_at(s, i, encode_items(ts) + arr_close()),
        i + encode_items(ts).len() + arr_close().len() == s.len(),
    ensures
        parse_items(s, i) == Some(ts),
    decreases ts.len(),
{
    reveal_strlit(",\n");
    reveal_strlit("\n]");
    if ts.len() == 1 {
        lemma_matches_split(s, i, encode_task(ts[0]), arr_close());
        lemma_parse_task_of_encode(s, i, ts[0]);
        let j = i + encode_task(ts[0]).len();
        assert(matches_at(s, j, arr_close()));
        assert(j + arr_close().len() == s.len());
        assert(seq![ts[0]] =~= ts);
    } else {
        let e0 = encode_task(ts[0]);
        let tail = item_sep() + encode_items(ts.drop_first());
        assert(encode_items(ts) =~= e0 + tail);
        assert((encode_items(ts) + arr_close()) =~= e0 + (tail + arr_close()));
        lemma_matches_split(s, i, e0, tail + arr_close());
        lemma_parse_task_of_encode(s, i, ts[0]);
        let j = i + e0.len();
        assert((tail + arr_close()) =~= item_sep() + (encode_items(ts.drop_first())
            + arr_close()));
        lemma_matches_split(s, j, item_sep(), encode_items(ts.drop_first()) + arr_close());
        assert(matches_at(s, j, item_sep()));
        // The end branch cannot fire here: after the item comes a comma, not
        // the closing newline.
        if matches_at(s, j, arr_close()) {
            lemma_matches_index(s, j, arr_close(), 0);
            lemma_matches_index(s, j, item_sep(), 0);
            assert(false);
        }
        let j2 = j + item_sep().len();
        assert forall|k: int| 0 <= k < ts.drop_first().len() implies (#[trigger] ts.drop_first()[k]).id
            <= usize::MAX as nat by {
            assert(ts.drop_first()[k] == ts[k + 1]);
        }
        lemma_parse_items_of_encode(s, j2, ts.drop_first());
        assert(seq![ts[0]] + ts.drop_first() =~= ts);
    }
}

/// Law: the file text of a store parses back to the very same store — saving
/// and loading preserve order and every field. The ids of a stored task fit
/// in `usize`, which is all the bound asks.
pub proof fn lemma_encode_parse_round_trip(ts: Seq<TaskView>)
    requires
        forall|k: int| 0 <= k < ts.len() ==> (#[trigger] ts[k]).id <= usize::MAX as nat,
    ensures
        spec_parse(encode_tasks(ts)) == Some(ts),
{
    reveal_strlit("[]");
    reveal_strlit("[\n");
    reveal_strlit("\n]");
    reveal_strlit("  {\n    \"id\": ");
    if ts.len() == 0 {
        assert(encode_tasks(ts) == arr_empty());
        assert(spec_parse(encode_tasks(ts)) == Some(Seq::<TaskView>::empty()));
        assert(Seq::<TaskView>::empty() =~= ts);
    } else {
        let s = encode_tasks(ts);
        let body = encode_items(ts) + arr_close();
        assert(s =~= arr_open() + body);
        lemma_matches_split(s, 0, arr_open(), body);
        assert(matches_at(s, 0, arr_open() + body)) by {
            assert(s.subrange(0, s.len() as int) =~= s);
        }
        // The text of a task is at least as long as its opening, so the
        // whole text is longer than the empty array's.
        assert(encode_items(ts).len() >= encode_task(ts[0]).len()) by {
            if ts.len() > 1 {
            }
        }
        assert(encode_task(ts[0]).len() >= obj_open().len());
        assert(s.len() > arr_empty().len());
        assert(s != arr_empty());
        lemma_parse_items_of_encode(s, arr_open().len() as int, ts);
    }
}

/// Law, at the level of save and load: the store written by `encode_store`
/// is the store `load_from_text` reads back.
pub proof fn lemma_save_load_round_trip(ts: Seq<TaskView>)
    requires
        forall|k: int| 0 <= k < ts.len() ==> (#[trigger] ts[k]).id <= usize::MAX as nat,
    ensures
        load_result(Some(encode_tasks(ts))) == ts,
{
    lemma_encode_parse_round_trip(ts);
}

/// The store read at load time: a missing file or ill-formed text gives the
/// empty store.
pub open spec fn load_result(content: Option<Seq<char>>) -> Seq<TaskView> {
    match content {
        None => Seq::empty(),
        Some(s) => match spec_parse(s) {
            Some(ts) => ts,
            None => Seq::empty(),
        },
    }
}

/// The store loaded from the file's text; `None` stands for a missing file.
pub fn load_from_text(content: Option<&String>) -> (r: Vec<Task>)
    ensures
        match content {
            None => seq_view(r@) == load_result(None),
            Some(s) => seq_view(r@) == load_result(Some(s@)),
        },
{
    match content {
        None => {
            let r: Vec<Task> = Vec::new();
            proof {
                assert(seq_view(r@) =~= Seq::<TaskView>::empty());
            }
            r
        },
        Some(s) => {
            match parse_store(s.as_str()) {
                Some(ts) => ts,
                None => {
                    let r: Vec<Task> = Vec::new();
                    proof {
                        assert(seq_view(r@) =~= Seq::<TaskView>::empty());
                    }
                    r
                },
            }
        },
    }
}

} // verus!
