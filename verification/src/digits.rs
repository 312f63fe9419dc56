//! Decimal numerals as they appear on the wire: a spec-level reading and
//! rendering of unsigned numbers, with verified executable counterparts.

use crate::utils::string_push;
use vstd::prelude::*;

verus! {

pub open spec fn is_dec_digit(c: char) -> bool {
    48 <= c as u32 && c as u32 <= 57
}

pub open spec fn digit_val(c: char) -> nat
    recommends
        is_dec_digit(c),
{
    (c as u32 - 48) as nat
}

/// The digit characters, by value.
pub open spec fn char_of_digit(d: nat) -> char {
    if d == 0 {
        '0'
    } else if d == 1 {
        '1'
    } else if d == 2 {
        '2'
    } else if d == 3 {
        '3'
    } else if d == 4 {
        '4'
    } else if d == 5 {
        '5'
    } else if d == 6 {
        '6'
    } else if d == 7 {
        '7'
    } else if d == 8 {
        '8'
    } else {
        '9'
    }
}

pub open spec fn all_digits(s: Seq<char>) -> bool {
    forall|i: int| 0 <= i < s.len() ==> is_dec_digit(#[trigger] s[i])
}

/// The number a digit string denotes (most significant digit first).
pub open spec fn dec_val(s: Seq<char>) -> nat
    decreases s.len(),
{
    if s.len() == 0 {
        0
    } else {
        dec_val(s.drop_last()) * 10 + digit_val(s.last())
    }
}

/// The canonical decimal rendering of a number: no leading zeros, a single
/// `'0'` for zero.
pub open spec fn spec_dec(n: nat) -> Seq<char>
    decreases n,
{
    if n < 10 {
        seq![char_of_digit(n)]
    } else {
        spec_dec(n / 10).push(char_of_digit(n % 10))
    }
}

/// A digit string that denotes a number an exec `usize` can hold.
pub open spec fn valid_dec_usize(s: Seq<char>) -> bool {
    s.len() > 0 && all_digits(s) && dec_val(s) <= usize::MAX
}

pub proof fn lemma_spec_dec(n: nat)
    ensures
        spec_dec(n).len() > 0,
        all_digits(spec_dec(n)),
        dec_val(spec_dec(n)) == n,
    decreases n,
{
    if n < 10 {
        assert(spec_dec(n) =~= seq![char_of_digit(n)]);
        assert(spec_dec(n).drop_last() =~= Seq::<char>::empty());
        assert(dec_val(Seq::<char>::empty()) == 0);
        assert(spec_dec(n).last() == char_of_digit(n));
        assert(dec_val(spec_dec(n)) == digit_val(char_of_digit(n)));
    } else {
        lemma_spec_dec(n / 10);
        let s = spec_dec(n);
        assert(s =~= spec_dec(n / 10).push(char_of_digit(n % 10)));
        assert(s.drop_last() =~= spec_dec(n / 10));
        assert(s.last() == char_of_digit(n % 10));
        assert(digit_val(char_of_digit(n % 10)) == n % 10);
        assert(dec_val(s) == (n / 10) * 10 + n % 10);
        assert((n / 10) * 10 + n % 10 == n) by (nonlinear_arith);
        assert(forall|i: int|
            0 <= i < s.len() ==> is_dec_digit(#[trigger] s[i])) by {
            assert(forall|i: int|
                0 <= i < s.len() - 1 ==> s[i] == spec_dec(n / 10)[i]);
        }
    }
}

/// Reading a longer prefix of a digit string never shrinks the value.
pub proof fn lemma_dec_val_prefix(s: Seq<char>, i: int)
    requires
        0 <= i <= s.len(),
    ensures
        dec_val(s.take(i)) <= dec_val(s),
    decreases s.len(),
{
    if i < s.len() {
        assert(s.drop_last().take(i) =~= s.take(i));
        lemma_dec_val_prefix(s.drop_last(), i);
        assert(dec_val(s.drop_last()) * 10 >= dec_val(s.drop_last())) by (nonlinear_arith);
    } else {
        assert(s.take(i) =~= s);
    }
}

fn exec_char_of_digit(d: u8) -> (r: char)
    requires
        d < 10,
    ensures
        r == char_of_digit(d as nat),
{
    match d {
        0 => '0',
        1 => '1',
        2 => '2',
        3 => '3',
        4 => '4',
        5 => '5',
        6 => '6',
        7 => '7',
        8 => '8',
        _ => '9',
    }
}

fn push_dec(s: &mut String, n: usize)
    ensures
        final(s)@ == old(s)@ + spec_dec(n as nat),
    decreases n,
{
    if n >= 10 {
        push_dec(s, n / 10);
    }
    string_push(s, exec_char_of_digit((n % 10) as u8));
    proof {
        if n < 10 {
            assert(old(s)@ + spec_dec(n as nat) =~= old(s)@.push(char_of_digit(n as nat)));
        } else {
            assert((old(s)@ + spec_dec((n / 10) as nat)).push(char_of_digit((n % 10) as nat))
                =~= old(s)@ + spec_dec(n as nat));
        }
    }
}

/// Render a number in canonical decimal.
pub fn usize_to_string(n: usize) -> (r: String)
    ensures
        r@ == spec_dec(n as nat),
{
    let mut s = String::new();
    push_dec(&mut s, n);
    proof {
        assert(Seq::<char>::empty() + spec_dec(n as nat) =~= spec_dec(n as nat));
    }
    s
}

/// Read a decimal numeral.  Succeeds exactly on non-empty all-digit strings
/// whose value fits in a `usize`; leading zeros are accepted.
pub fn parse_dec_str(s: &str) -> (r: Option<usize>)
    ensures
        valid_dec_usize(s@) ==> r == Some((dec_val(s@) as usize)),
        !valid_dec_usize(s@) ==> r is None,
{
    let n = s.unicode_len();
    if n == 0 {
        return None;
    }
    let mut val: usize = 0;
    for i in 0..n
        invariant
            n == s@.len(),
            all_digits(s@.take(i as int)),
            val == dec_val(s@.take(i as int)),
    {
        let c = s.get_char(i);
        let u = c as u32;
        if u < 48 || u > 57 {
            assert(!is_dec_digit(s@[i as int]));
            return None;
        }
        let d = (u - 48) as usize;
        proof {
            assert(s@.take(i + 1).drop_last() =~= s@.take(i as int));
            assert(s@.take(i + 1).last() == s@[i as int]);
        }
        if val > (usize::MAX - d) / 10 {
            proof {
                assert(dec_val(s@.take(i + 1)) == val * 10 + d);
                assert(val * 10 + d > usize::MAX) by (nonlinear_arith)
                    requires
                        val > (usize::MAX - d) / 10,
                        d < 10,
                ;
                lemma_dec_val_prefix(s@, i + 1);
            }
            return None;
        }
        proof {
            assert(val * 10 + d <= usize::MAX) by (nonlinear_arith)
                requires
                    val <= (usize::MAX - d) / 10,
                    d < 10,
            ;
        }
        val = val * 10 + d;
    }
    proof {
        assert(s@.take(n as int) =~= s@);
    }
    Some(val)
}

} // verus!
