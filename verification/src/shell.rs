//! Interpreting console input: the menu choice and task numbers.
//!
//! A line of input is trimmed and read as an unsigned decimal number; a
//! line that does not read as one never aborts anything — it yields
//! nothing, and the caller reports it and asks again.

use vstd::prelude::*;
use crate::text::{all_digits, digits_val, digit_of_char, is_digit, trimmed, trim_text,
    lemma_digits_val_prefix};

verus! {

/// What a line of input denotes as a number: its trimmed text must be all
/// digits, at least one, and denote a value that fits the machine word.
/// Leading zeros are tolerated — this reads user input, not the persisted
/// file.
pub open spec fn sp_input_number(line: Seq<char>) -> Option<nat> {
    let t = trimmed(line);
    if t.len() > 0 && all_digits(t) && digits_val(t) <= usize::MAX {
        Some(digits_val(t))
    } else {
        None
    }
}

/// Reads a line of input as a number, yielding nothing on any line that
/// denotes none.
pub fn parse_input_number(line: &str) -> (r: Option<usize>)
    ensures
        match r {
            Some(n) => sp_input_number(line@) == Some(n as nat),
            None => sp_input_number(line@) is None,
        },
{
    let t = trim_text(line);
    let ts = t.as_str();
    let len = ts.unicode_len();
    if len == 0 {
        return None;
    }
    let mut i: usize = 0;
    let mut acc: usize = 0;
    while i < len
        invariant
            i <= len,
            len == ts@.len(),
            ts@ == trimmed(line@),
            forall|k: int| 0 <= k < i ==> is_digit(#[trigger] ts@[k]),
            acc == digits_val(ts@.subrange(0, i as int)),
        decreases len - i,
    {
        let c = ts.get_char(i);
        let d = match digit_of_char(c) {
            Some(d) => d as usize,
            None => {
                return None;
            },
        };
        proof {
            let pre = ts@.subrange(0, i as int);
            let cur = ts@.subrange(0, i + 1);
            assert(cur.drop_last() =~= pre);
            assert(cur.last() == ts@[i as int]);
        }
        if acc > (usize::MAX - d) / 10 {
            proof {
                let cur = ts@.subrange(0, i + 1);
                assert(digits_val(cur) > usize::MAX) by (nonlinear_arith)
                    requires
                        digits_val(cur) == acc * 10 + d,
                        d < 10,
                        acc > (usize::MAX - d) / 10,
                ;
                lemma_digits_val_prefix(ts@, i + 1, len as int);
                assert(ts@.subrange(0, len as int) =~= ts@);
            }
            return None;
        }
        proof {
            assert(acc * 10 + d <= usize::MAX) by (nonlinear_arith)
                requires
                    d < 10,
                    acc <= (usize::MAX - d) / 10,
            ;
        }
        acc = acc * 10 + d;
        i = i + 1;
    }
    proof {
        assert(ts@.subrange(0, len as int) =~= ts@);
    }
    Some(acc)
}

/// One entry of the interactive menu, or none of them.
#[derive(PartialEq, Eq, Structural, Clone, Copy, Debug)]
pub enum MenuChoice {
    AddTask,
    RemoveTask,
    ViewTasks,
    MarkDone,
    Exit,
    Invalid,
}

/// Which menu entry a line of input picks: its number, or none.
pub open spec fn sp_menu_choice(line: Seq<char>) -> MenuChoice {
    match sp_input_number(line) {
        Some(n) => if n == 1 {
            MenuChoice::AddTask
        } else if n == 2 {
            MenuChoice::RemoveTask
        } else if n == 3 {
            MenuChoice::ViewTasks
        } else if n == 4 {
            MenuChoice::MarkDone
        } else if n == 5 {
            MenuChoice::Exit
        } else {
            MenuChoice::Invalid
        },
        None => MenuChoice::Invalid,
    }
}

/// Reads a line of input as a menu choice.
pub fn parse_menu_choice(line: &str) -> (c: MenuChoice)
    ensures
        c == sp_menu_choice(line@),
{
    match parse_input_number(line) {
        Some(1) => MenuChoice::AddTask,
        Some(2) => MenuChoice::RemoveTask,
        Some(3) => MenuChoice::ViewTasks,
        Some(4) => MenuChoice::MarkDone,
        Some(5) => MenuChoice::Exit,
        Some(_) => MenuChoice::Invalid,
        None => MenuChoice::Invalid,
    }
}

} // verus!
