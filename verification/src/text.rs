//! Characters, decimal numbers, and whitespace trimming.

use vstd::prelude::*;

verus! {

// --- character classes ---

/// The whitespace characters that trimming strips.
pub open spec fn is_space(c: char) -> bool {
    c == ' ' || c == '\t' || c == '\r' || c == '\n'
}

/// A decimal digit.
pub open spec fn is_digit(c: char) -> bool {
    48 <= c as u32 && c as u32 <= 57
}

/// The numeric value of a decimal digit character.
pub open spec fn digit_val(c: char) -> nat {
    (c as u32 - 48) as nat
}

/// The character of a decimal digit value below ten.
pub open spec fn char_of_digit(d: nat) -> char {
    if d == 0 {
        '0'
    } else if d == 1 {
        '1'
    } else if d == 2 {
        '2'
    } else if d == 3 {
        '3'
    } else if d == 4 {
        '4'
    } else if d == 5 {
        '5'
    } else if d == 6 {
        '6'
    } else if d == 7 {
        '7'
    } else if d == 8 {
        '8'
    } else {
        '9'
    }
}

// --- decimal notation ---

/// The decimal digits of `n`, most significant first, with no leading zero
/// except for the single digit of zero itself.
pub open spec fn dec_digits(n: nat) -> Seq<char>
    decreases n,
{
    if n < 10 {
        seq![char_of_digit(n)]
    } else {
        dec_digits(n / 10).push(char_of_digit(n % 10))
    }
}

/// The number that a sequence of digit characters denotes.
pub open spec fn digits_val(s: Seq<char>) -> nat
    decreases s.len(),
{
    if s.len() == 0 {
        0
    } else {
        digits_val(s.drop_last()) * 10 + digit_val(s.last())
    }
}

/// Every character of `s` is a decimal digit.
pub open spec fn all_digits(s: Seq<char>) -> bool {
    forall|i: int| 0 <= i < s.len() ==> is_digit(#[trigger] s[i])
}

pub proof fn lemma_char_of_digit(d: nat)
    requires
        d < 10,
    ensures
        is_digit(char_of_digit(d)),
        digit_val(char_of_digit(d)) == d,
{
}

/// Decimal notation denotes the number it was made from, consists of digits
/// only, and starts with a zero only for the number zero.
pub proof fn lemma_dec_digits(n: nat)
    ensures
        dec_digits(n).len() >= 1,
        all_digits(dec_digits(n)),
        digits_val(dec_digits(n)) == n,
        dec_digits(n)[0] == '0' ==> n == 0,
    decreases n,
{
    if n < 10 {
        lemma_char_of_digit(n);
        assert(dec_digits(n) == seq![char_of_digit(n)]);
        assert(dec_digits(n).drop_last() =~= Seq::<char>::empty());
        assert(digits_val(Seq::<char>::empty()) == 0);
        assert(dec_digits(n).last() == char_of_digit(n));
    } else {
        lemma_dec_digits(n / 10);
        lemma_char_of_digit(n % 10);
        let p = dec_digits(n / 10);
        let c = char_of_digit(n % 10);
        assert(p.push(c).drop_last() =~= p);
        assert(p.push(c).last() == c);
        assert(digits_val(dec_digits(n)) == digits_val(p) * 10 + digit_val(c));
        assert(digits_val(p) * 10 + digit_val(c) == n) by {
            assert(n / 10 * 10 + n % 10 == n);
        }
        assert(dec_digits(n)[0] == p[0]);
    }
}

/// Appending one more digit never lowers the denoted value.
pub proof fn lemma_digits_val_prefix(s: Seq<char>, i: int, j: int)
    requires
        0 <= i <= j <= s.len(),
    ensures
        digits_val(s.subrange(0, i)) <= digits_val(s.subrange(0, j)),
    decreases j - i,
{
    if i < j {
        lemma_digits_val_prefix(s, i, j - 1);
        let a = s.subrange(0, j - 1);
        let b = s.subrange(0, j);
        assert(b.drop_last() =~= a);
        assert(digits_val(b) == digits_val(a) * 10 + digit_val(b.last()));
        assert(digits_val(a) * 10 >= digits_val(a)) by (nonlinear_arith);
    }
}

// --- the end of a digit run ---

/// The first position at or after `i` that does not hold a digit.
pub open spec fn digits_end(s: Seq<char>, i: int) -> int
    decreases s.len() - i,
{
    if i < s.len() && is_digit(s[i]) {
        digits_end(s, i + 1)
    } else {
        i
    }
}

pub proof fn lemma_digits_end(s: Seq<char>, i: int)
    requires
        0 <= i <= s.len(),
    ensures
        i <= digits_end(s, i) <= s.len(),
        forall|k: int| i <= k < digits_end(s, i) ==> is_digit(#[trigger] s[k]),
        digits_end(s, i) == s.len() || !is_digit(s[digits_end(s, i)]),
    decreases s.len() - i,
{
    if i < s.len() && is_digit(s[i]) {
        lemma_digits_end(s, i + 1);
    }
}

/// A run of digits that stops at `j` has `j` as its end.
pub proof fn lemma_digits_end_of_run(s: Seq<char>, i: int, j: int)
    requires
        0 <= i <= j <= s.len(),
        forall|k: int| i <= k < j ==> is_digit(#[trigger] s[k]),
        j == s.len() || !is_digit(s[j]),
    ensures
        digits_end(s, i) == j,
    decreases j - i,
{
    if i < j {
        lemma_digits_end_of_run(s, i + 1, j);
    }
}

// --- executable character tests ---

/// Tells whether `c` is one of the whitespace characters trimming strips.
pub fn space_char(c: char) -> (r: bool)
    ensures
        r == is_space(c),
{
    c == ' ' || c == '\t' || c == '\r' || c == '\n'
}

/// The digit value of `c`, or nothing where `c` is no decimal digit.
pub fn digit_of_char(c: char) -> (r: Option<u32>)
    ensures
        match r {
            Some(d) => is_digit(c) && d == digit_val(c) && d < 10,
            None => !is_digit(c),
        },
{
    let u = c as u32;
    if 48 <= u && u <= 57 {
        Some(u - 48)
    } else {
        None
    }
}

/// The one-character string of a digit value below ten.
pub fn digit_str(d: usize) -> (r: &'static str)
    requires
        d < 10,
    ensures
        r@ == seq![char_of_digit(d as nat)],
{
    let r: &'static str = match d {
        0 => "0",
        1 => "1",
        2 => "2",
        3 => "3",
        4 => "4",
        5 => "5",
        6 => "6",
        7 => "7",
        8 => "8",
        _ => "9",
    };
    proof {
        reveal_strlit("0");
        reveal_strlit("1");
        reveal_strlit("2");
        reveal_strlit("3");
        reveal_strlit("4");
        reveal_strlit("5");
        reveal_strlit("6");
        reveal_strlit("7");
        reveal_strlit("8");
        reveal_strlit("9");
        assert(r@ =~= seq![char_of_digit(d as nat)]);
    }
    r
}

/// Renders `n` in decimal notation.
pub fn fmt_usize(n: usize) -> (r: String)
    ensures
        r@ == dec_digits(n as nat),
    decreases n,
{
    if n < 10 {
        digit_str(n).to_owned()
    } else {
        let mut s = fmt_usize(n / 10);
        s.append(digit_str(n % 10));
        proof {
            assert(s@ =~= dec_digits(n as nat));
        }
        s
    }
}

// --- parsing a decimal number ---

/// What reading a decimal number at position `i` yields: the denoted value
/// and the position after its digits. There is no number to read where no
/// digit stands at `i`, where a leading zero pads the notation, or where the
/// value exceeds the machine's word.
pub open spec fn sp_number(s: Seq<char>, i: int) -> Option<(nat, int)> {
    let e = digits_end(s, i);
    if e > i && (s[i] != '0' || e == i + 1) && digits_val(s.subrange(i, e)) <= usize::MAX {
        Some((digits_val(s.subrange(i, e)), e))
    } else {
        None
    }
}

/// Reads the decimal number that starts at position `start`.
pub fn parse_number(s: &str, start: usize) -> (r: Option<(usize, usize)>)
    requires
        start <= s@.len(),
    ensures
        match r {
            Some((n, e)) => {
                &&& sp_number(s@, start as int) == Some((n as nat, e as int))
                &&& start < e <= s@.len()
            },
            None => sp_number(s@, start as int) is None,
        },
{
    let len = s.unicode_len();
    proof {
        lemma_digits_end(s@, start as int);
    }
    let mut i = start;
    let mut acc: usize = 0;
    let mut overflow = false;
    loop
        invariant
            start <= i <= len,
            len == s@.len(),
            forall|k: int| start <= k < i ==> is_digit(#[trigger] s@[k]),
            !overflow ==> acc == digits_val(s@.subrange(start as int, i as int)),
            overflow ==> digits_val(s@.subrange(start as int, i as int)) > usize::MAX,
        ensures
            start <= i <= len,
            i == len || !is_digit(s@[i as int]),
            forall|k: int| start <= k < i ==> is_digit(#[trigger] s@[k]),
            !overflow ==> acc == digits_val(s@.subrange(start as int, i as int)),
            overflow ==> digits_val(s@.subrange(start as int, i as int)) > usize::MAX,
        decreases len - i,
    {
        if i >= len {
            break;
        }
        let c = s.get_char(i);
        let d = match digit_of_char(c) {
            Some(d) => d as usize,
            None => { break; },
        };
        proof {
            let pre = s@.subrange(start as int, i as int);
            let cur = s@.subrange(start as int, i + 1);
            assert(cur.drop_last() =~= pre);
            assert(cur.last() == s@[i as int]);
            assert(digits_val(cur) == digits_val(pre) * 10 + digit_val(s@[i as int]));
        }
        if !overflow {
            if acc > (usize::MAX - d) / 10 {
                overflow = true;
                proof {
                    let pre = s@.subrange(start as int, i as int);
                    assert(digits_val(pre) * 10 + digit_val(s@[i as int]) > usize::MAX) by (nonlinear_arith)
                        requires
                            digits_val(pre) == acc,
                            digit_val(s@[i as int]) == d,
                            d < 10,
                            acc > (usize::MAX - d) / 10,
                    ;
                }
            } else {
                proof {
                    assert(acc * 10 + d <= usize::MAX) by (nonlinear_arith)
                        requires
                            d < 10,
                            acc <= (usize::MAX - d) / 10,
                    ;
                }
                acc = acc * 10 + d;
            }
        } else {
            proof {
                let pre = s@.subrange(start as int, i as int);
                assert(digits_val(pre) * 10 + digit_val(s@[i as int]) > usize::MAX) by (nonlinear_arith)
                    requires
                        digits_val(pre) > usize::MAX,
                        digit_val(s@[i as int]) >= 0,
                ;
            }
        }
        i = i + 1;
    }
    proof {
        lemma_digits_end_of_run(s@, start as int, i as int);
    }
    if i == start {
        return None;
    }
    if overflow {
        return None;
    }
    let c0 = s.get_char(start);
    if c0 == '0' && i > start + 1 {
        return None;
    }
    Some((acc, i))
}

// --- trimming ---

/// `s` with its leading whitespace stripped.
pub open spec fn trim_front(s: Seq<char>) -> Seq<char>
    decreases s.len(),
{
    if s.len() > 0 && is_space(s[0]) {
        trim_front(s.drop_first())
    } else {
        s
    }
}

/// `s` with its trailing whitespace stripped.
pub open spec fn trim_back(s: Seq<char>) -> Seq<char>
    decreases s.len(),
{
    if s.len() > 0 && is_space(s.last()) {
        trim_back(s.drop_last())
    } else {
        s
    }
}

/// `s` with whitespace stripped on both ends.
pub open spec fn trimmed(s: Seq<char>) -> Seq<char> {
    trim_back(trim_front(s))
}

/// Strips the surrounding whitespace of `s`.
pub fn trim_text(s: &str) -> (r: String)
    ensures
        r@ == trimmed(s@),
{
    let len = s.unicode_len();
    proof {
        assert(s@.subrange(0, len as int) =~= s@);
    }
    let mut a: usize = 0;
    loop
        invariant
            a <= len,
            len == s@.len(),
            trim_front(s@) == trim_front(s@.subrange(a as int, len as int)),
        ensures
            a <= len,
            len == s@.len(),
            trim_front(s@) == trim_front(s@.subrange(a as int, len as int)),
            a == len || !is_space(s@[a as int]),
        decreases len - a,
    {
        if a >= len {
            break;
        }
        let c = s.get_char(a);
        if !space_char(c) {
            break;
        }
        proof {
            let cur = s@.subrange(a as int, len as int);
            let next = s@.subrange(a + 1, len as int);
            assert(cur.drop_first() =~= next);
        }
        a = a + 1;
    }
    let mut b = len;
    proof {
        if a < len {
            assert(trim_front(s@.subrange(a as int, len as int))
                == s@.subrange(a as int, len as int));
        } else {
            assert(s@.subrange(a as int, len as int) =~= Seq::<char>::empty());
        }
    }
    loop
        invariant
            a <= b <= len,
            len == s@.len(),
            trimmed(s@) == trim_back(s@.subrange(a as int, b as int)),
        ensures
            a <= b <= len,
            len == s@.len(),
            trimmed(s@) == trim_back(s@.subrange(a as int, b as int)),
            b == a || !is_space(s@[b - 1]),
        decreases b,
    {
        if b <= a {
            break;
        }
        let c = s.get_char(b - 1);
        if !space_char(c) {
            break;
        }
        proof {
            let cur = s@.subrange(a as int, b as int);
            let next = s@.subrange(a as int, b - 1);
            assert(cur.drop_last() =~= next);
        }
        b = b - 1;
    }
    proof {
        let cur = s@.subrange(a as int, b as int);
        if b > a {
            assert(trim_back(cur) == cur);
        } else {
            assert(cur =~= Seq::<char>::empty());
        }
    }
    s.substring_char(a, b).to_owned()
}

} // verus!
