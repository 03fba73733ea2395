//! The command line of the tool: which command the arguments after the
//! program name ask for, with the description words joined and the id
//! checked as a number.

use vstd::prelude::*;
use crate::numeral::{
    all_digits, dec_val, digits_end, lemma_digits_end_bounds, lemma_digits_end_skip, parse_number,
    scan_number,
};
use crate::text::{str_chars, str_eq, string_of_chars};

verus! {

/// One command, already checked and carrying its data.
pub enum Command {
    Add(String),
    Remove(usize),
    View,
    Help,
}

/// A fault in the command line: the process reports it and exits non-zero.
pub enum CliError {
    NoDescription,
    NoId,
    InvalidId,
    UnknownCommand,
}

/// The value of a `remove` argument: all digits, at least one, small enough
/// for `usize`.
pub open spec fn id_value(s: Seq<char>) -> Option<nat> {
    if s.len() > 0 && all_digits(s) && dec_val(s) <= usize::MAX as nat {
        Some(dec_val(s))
    } else {
        None
    }
}

/// The words joined by single spaces.
pub open spec fn joined(parts: Seq<Seq<char>>) -> Seq<char>
    decreases parts.len(),
{
    if parts.len() == 0 {
        Seq::empty()
    } else if parts.len() == 1 {
        parts[0]
    } else {
        joined(parts.drop_last()) + seq![' '] + parts.last()
    }
}

pub open spec fn args_view(args: Seq<String>) -> Seq<Seq<char>> {
    args.map_values(|a: String| a@)
}

proof fn lemma_id_value_from_scan(s: Seq<char>)
    ensures
        match parse_number(s, 0) {
            Some((n, j)) => if j == s.len() {
                id_value(s) == Some(n)
            } else {
                id_value(s) is None
            },
            None => id_value(s) is None,
        },
{
    lemma_digits_end_bounds(s, 0);
    let e = digits_end(s, 0);
    if all_digits(s) && s.len() > 0 {
        lemma_digits_end_skip(s, 0, s.len() as int);
        assert(e == s.len());
        assert(s.subrange(0, e) =~= s);
    }
    match parse_number(s, 0) {
        Some((n, j)) => {
            if j == s.len() {
                assert(s.subrange(0, j) =~= s);
                if s.len() > 0 {
                    assert(all_digits(s));
                }
            } else {
                assert(!is_digit_at(s, j));
            }
        },
        None => {},
    }
}

/// Whether the character at `j` is a digit (a named stepping stone for the
/// proof above).
spec fn is_digit_at(s: Seq<char>, j: int) -> bool {
    0 <= j < s.len() && crate::numeral::is_digit(s[j])
}

/// Reads a `remove` id argument.
pub fn parse_id(arg: &str) -> (r: Option<usize>)
    ensures
        match r {
            Some(n) => id_value(arg@) == Some(n as nat),
            None => id_value(arg@) is None,
        },
{
    let cs = str_chars(arg);
    proof {
        lemma_id_value_from_scan(arg@);
    }
    match scan_number(&cs, 0) {
        Some((n, j)) => {
            if j == cs.len() {
                Some(n)
            } else {
                None
            }
        },
        None => None,
    }
}

/// Joins words with single spaces.
pub fn join_words(args: &Vec<String>, from: usize) -> (r: String)
    requires
        from <= args@.len(),
    ensures
        r@ == joined(args_view(args@).subrange(from as int, args@.len() as int)),
{
    let ghost a = args_view(args@);
    let mut out: Vec<char> = Vec::new();
    let mut w: usize = from;
    while w < args.len()
        invariant
            from <= w <= args@.len(),
            a == args_view(args@),
            out@ == joined(a.subrange(from as int, w as int)),
        decreases args@.len() - w,
    {
        if w > from {
            out.push(' ');
        }
        let cs = str_chars(args[w].as_str());
        let mut k: usize = 0;
        while k < cs.len()
            invariant
                k <= cs@.len(),
                cs@ == args@[w as int]@,
                w < args@.len(),
                from <= w,
                a == args_view(args@),
                w == from ==> out@ == joined(a.subrange(from as int, w as int)) + cs@.subrange(
                    0,
                    k as int,
                ),
                w > from ==> out@ == joined(a.subrange(from as int, w as int)) + seq![' ']
                    + cs@.subrange(0, k as int),
            decreases cs@.len() - k,
        {
            out.push(cs[k]);
            k = k + 1;
            proof {
                if w == from {
                    assert(out@ =~= joined(a.subrange(from as int, w as int)) + cs@.subrange(
                        0,
                        k as int,
                    ));
                } else {
                    assert(out@ =~= joined(a.subrange(from as int, w as int)) + seq![' ']
                        + cs@.subrange(0, k as int));
                }
            }
        }
        w = w + 1;
        proof {
            let p = a.subrange(from as int, w as int);
            assert(cs@.subrange(0, cs@.len() as int) =~= cs@);
            if w - from == 1 {
                assert(p.len() == 1);
                assert(p[0] == a[w as int - 1]);
                assert(joined(a.subrange(from as int, w as int - 1)) =~= Seq::<char>::empty());
                assert(out@ =~= joined(p));
            } else {
                assert(p.drop_last() =~= a.subrange(from as int, w as int - 1));
                assert(p.last() == a[w as int - 1]);
                assert(out@ =~= joined(p));
            }
        }
    }
    string_of_chars(&out)
}

/// Reads the arguments after the program name as one command. Each outcome
/// names the one shape of argument list that produces it.
pub fn parse_command(args: &Vec<String>) -> (r: Result<Command, CliError>)
    ensures
        ({
            let a = args_view(args@);
            match r {
                Ok(Command::Help) => a.len() == 0 || (a.len() >= 1 && a[0] == "help"@),
                Ok(Command::View) => a.len() >= 1 && a[0] == "view"@,
                Ok(Command::Add(d)) => a.len() >= 2 && a[0] == "add"@ && d@ == joined(
                    a.subrange(1, a.len() as int),
                ),
                Ok(Command::Remove(id)) => a.len() >= 2 && a[0] == "remove"@ && id_value(a[1])
                    == Some(id as nat),
                Err(CliError::NoDescription) => a.len() == 1 && a[0] == "add"@,
                Err(CliError::NoId) => a.len() == 1 && a[0] == "remove"@,
                Err(CliError::InvalidId) => a.len() >= 2 && a[0] == "remove"@ && id_value(a[1])
                    is None,
                Err(CliError::UnknownCommand) => a.len() >= 1 && a[0] != "add"@ && a[0]
                    != "remove"@ && a[0] != "view"@ && a[0] != "help"@,
            }
        }),
{
    if args.len() == 0 {
        return Ok(Command::Help);
    }
    if str_eq(args[0].as_str(), "add") {
        if args.len() < 2 {
            return Err(CliError::NoDescription);
        }
        let d = join_words(args, 1);
        return Ok(Command::Add(d));
    }
    if str_eq(args[0].as_str(), "remove") {
        if args.len() < 2 {
            return Err(CliError::NoId);
        }
        match parse_id(args[1].as_str()) {
            Some(id) => {
                return Ok(Command::Remove(id));
            },
            None => {
                return Err(CliError::InvalidId);
            },
        }
    }
    if str_eq(args[0].as_str(), "view") {
        return Ok(Command::View);
    }
    if str_eq(args[0].as_str(), "help") {
        return Ok(Command::Help);
    }
    Err(CliError::UnknownCommand)
}

} // verus!
