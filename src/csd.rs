//! The mathematical meaning of a signed-digit string.
use vstd::prelude::*;

verus! {

/// `2^e`.
pub open spec fn pow2(e: nat) -> nat
    decreases e,
{
    if e == 0 {
        1
    } else {
        2 * pow2((e - 1) as nat)
    }
}

/// Absolute value.
pub open spec fn abs(v: int) -> int {
    if v < 0 {
        -v
    } else {
        v
    }
}

/// Value of a single signed digit: `+` is one, `-` is minus one, anything else is zero.
pub open spec fn digit_value(c: char) -> int {
    if c == '+' {
        1
    } else if c == '-' {
        -1
    } else {
        0
    }
}

/// Value of a string of signed digits with no point, the last digit weighing one
/// and each digit twice as much as its right neighbour.
pub open spec fn csd_value(s: Seq<char>) -> int
    decreases s.len(),
{
    if s.len() == 0 {
        0
    } else {
        digit_value(s[0]) * pow2((s.len() - 1) as nat) + csd_value(s.drop_first())
    }
}

/// Number of positions that hold something other than `0`.
pub open spec fn nonzero_count(s: Seq<char>) -> nat
    decreases s.len(),
{
    if s.len() == 0 {
        0
    } else {
        (if s[0] == '0' {
            0nat
        } else {
            1nat
        }) + nonzero_count(s.drop_first())
    }
}

/// No two neighbouring positions are both non-zero.
pub open spec fn is_canonical(s: Seq<char>) -> bool {
    forall|i: int| 0 <= i < s.len() - 1 ==> #[trigger] s[i] == '0' || s[i + 1] == '0'
}

/// The characters of `cs`, one element each.
pub fn chars_of(cs: &str) -> (chars: Vec<char>)
    ensures
        chars@ == cs@,
{
    let n = cs.unicode_len();
    let mut chars: Vec<char> = Vec::new();
    let mut k: usize = 0;
    while k < n
        invariant
            n == cs@.len(),
            k <= n,
            chars@ == cs@.subrange(0, k as int),
        decreases n - k,
    {
        chars.push(cs.get_char(k));
        k = k + 1;
        assert(chars@ =~= cs@.subrange(0, k as int));
    }
    assert(chars@ =~= cs@);
    chars
}

pub proof fn lemma_pow2_positive(e: nat)
    ensures
        pow2(e) >= 1,
        pow2(e) > e,
        e >= 1 ==> pow2(e) >= 2,
    decreases e,
{
    if e > 0 {
        lemma_pow2_positive((e - 1) as nat);
    }
}

} // verus!
