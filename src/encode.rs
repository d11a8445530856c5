//! Integer to CSD encoders, with and without a budget of non-zero digits.
use vstd::prelude::*;
use crate::csd::{abs, csd_value, digit_value, is_canonical, lemma_pow2_positive, nonzero_count, pow2};

verus! {

/// The least `e` with `2^e >= x` (zero for `x <= 1`).
pub open spec fn ceil_log2(x: nat) -> nat
    decreases x,
{
    if x <= 1 {
        0
    } else {
        1 + ceil_log2(((x + 1) / 2) as nat)
    }
}

/// Number of digit positions the integer encoders use for `v`: the ceiling of the
/// base-two logarithm of `|v| * 3 / 2`, the product truncated to an integer.
pub open spec fn int_width(v: int) -> nat {
    ceil_log2((abs(v) * 3 / 2) as nat)
}

/// The width is large enough for the greedy digits to add up to `v` exactly.
/// This fails only where truncating `|v| * 3 / 2` lands on a power of two (1, 3, 11, 43, ...).
pub open spec fn width_suffices(v: int) -> bool {
    3 * abs(v) <= 2 * pow2(int_width(v))
}

/// Greedy signed digits of the remainder `r` over `e` positions weighing `2^(e-1)` down to `1`.
/// A position whose threshold is `t = 2^e` (twice its weight) gets `+` when `3r > t`, `-` when
/// `3r < -t`, and `0` otherwise; `+` and `-` are only given while the budget is positive, and
/// each uses one unit of it.
pub open spec fn greedy_digits(r: int, e: nat, budget: int) -> Seq<char>
    decreases e,
{
    if e == 0 {
        Seq::empty()
    } else {
        let t = pow2(e) as int;
        let w = pow2((e - 1) as nat) as int;
        if budget > 0 && 3 * r > t {
            seq!['+'] + greedy_digits(r - w, (e - 1) as nat, budget - 1)
        } else if budget > 0 && 3 * r < -t {
            seq!['-'] + greedy_digits(r + w, (e - 1) as nat, budget - 1)
        } else {
            seq!['0'] + greedy_digits(r, (e - 1) as nat, budget)
        }
    }
}

/// The CSD string of an integer: `0` for zero, else the greedy digits over `int_width(v)`
/// positions with no limit on the non-zero digits.
pub open spec fn csd_of_int(v: int) -> Seq<char> {
    if v == 0 {
        seq!['0']
    } else {
        greedy_digits(v, int_width(v), int_width(v) as int)
    }
}

/// The CSD string of an integer with at most `nnz` non-zero digits: `0` for zero, else the
/// greedy digits over `int_width(v)` positions with budget `nnz`.
pub open spec fn csd_of_int_bounded(v: int, nnz: int) -> Seq<char> {
    if v == 0 {
        seq!['0']
    } else {
        greedy_digits(v, int_width(v), nnz)
    }
}

proof fn lemma_ceil_log2_bounds(x: nat)
    requires
        x >= 1,
    ensures
        x <= pow2(ceil_log2(x)) < 2 * x,
    decreases x,
{
    if x > 1 {
        let t = ((x + 1) / 2) as nat;
        let c = ceil_log2(t);
        lemma_ceil_log2_bounds(t);
        assert(pow2(c + 1) == 2 * pow2(c));
        if t >= 2 {
            assert(c >= 1);
            assert(pow2(c) == 2 * pow2((c - 1) as nat));
        }
    }
}

proof fn lemma_greedy_len(r: int, e: nat, budget: int)
    ensures
        greedy_digits(r, e, budget).len() == e,
    decreases e,
{
    if e > 0 {
        lemma_greedy_len(r - pow2((e - 1) as nat), (e - 1) as nat, budget - 1);
        lemma_greedy_len(r + pow2((e - 1) as nat), (e - 1) as nat, budget - 1);
        lemma_greedy_len(r, (e - 1) as nat, budget);
    }
}

/// Any budget of at least `e` lets every position take its unconstrained greedy digit.
pub proof fn lemma_greedy_budget_unused(r: int, e: nat, b1: int, b2: int)
    requires
        b1 >= e,
        b2 >= e,
    ensures
        greedy_digits(r, e, b1) == greedy_digits(r, e, b2),
    decreases e,
{
    if e > 0 {
        lemma_greedy_budget_unused(r - pow2((e - 1) as nat), (e - 1) as nat, b1 - 1, b2 - 1);
        lemma_greedy_budget_unused(r + pow2((e - 1) as nat), (e - 1) as nat, b1 - 1, b2 - 1);
        lemma_greedy_budget_unused(r, (e - 1) as nat, b1, b2);
    }
}

/// With a budget of at least `e`, the greedy digits add up to `r` whenever `|3r| <= 2^(e+1)`.
pub proof fn lemma_greedy_exact(r: int, e: nat, budget: int)
    requires
        budget >= e,
        3 * abs(r) <= 2 * pow2(e),
    ensures
        csd_value(greedy_digits(r, e, budget)) == r,
    decreases e,
{
    if e > 0 {
        let t = pow2(e) as int;
        let w = pow2((e - 1) as nat) as int;
        let s = greedy_digits(r, e, budget);
        let (r2, b2) = if 3 * r > t {
            (r - w, budget - 1)
        } else if 3 * r < -t {
            (r + w, budget - 1)
        } else {
            (r, budget)
        };
        let rest = greedy_digits(r2, (e - 1) as nat, b2);
        lemma_greedy_exact(r2, (e - 1) as nat, b2);
        lemma_greedy_len(r, e, budget);
        assert(s.drop_first() =~= rest);
        assert(csd_value(s) == digit_value(s[0]) * w + csd_value(rest));
        assert(r == digit_value(s[0]) * w + r2);
    }
}

/// While `|3r| <= 2^(e+1)`, once the budget is spent, or when a single non-zero digit is left
/// and `|3r| <= 2^(e+1) + 1`, the greedy digits never put two non-zero digits side by side;
/// when even `|3r| <= 2^e` the first digit is `0`.
pub proof fn lemma_greedy_canonical(r: int, e: nat, budget: int)
    requires
        3 * abs(r) <= 2 * pow2(e) || budget <= 0 || (budget == 1 && 3 * abs(r) <= 2 * pow2(e)
            + 1),
    ensures
        is_canonical(greedy_digits(r, e, budget)),
        e > 0 && (3 * abs(r) <= pow2(e) || budget <= 0) ==> greedy_digits(r, e, budget)[0]
            == '0',
    decreases e,
{
    if e > 0 {
        let t = pow2(e) as int;
        let w = pow2((e - 1) as nat) as int;
        let s = greedy_digits(r, e, budget);
        let (r2, b2) = if budget > 0 && 3 * r > t {
            (r - w, budget - 1)
        } else if budget > 0 && 3 * r < -t {
            (r + w, budget - 1)
        } else {
            (r, budget)
        };
        let rest = greedy_digits(r2, (e - 1) as nat, b2);
        lemma_greedy_canonical(r2, (e - 1) as nat, b2);
        lemma_greedy_len(r2, (e - 1) as nat, b2);
        assert(s =~= seq![s[0]] + rest);
        assert forall|i: int| 0 <= i < s.len() - 1 implies #[trigger] s[i] == '0' || s[i + 1]
            == '0' by {
            if i > 0 {
                assert(s[i] == rest[i - 1]);
                assert(s[i + 1] == rest[i]);
            }
        }
    }
}

/// The greedy digits hold at most `budget` non-zero digits, and none when it is not positive.
pub proof fn lemma_greedy_count(r: int, e: nat, budget: int)
    ensures
        nonzero_count(greedy_digits(r, e, budget)) <= (if budget > 0 {
            budget
        } else {
            0
        }),
    decreases e,
{
    if e > 0 {
        let t = pow2(e) as int;
        let w = pow2((e - 1) as nat) as int;
        let s = greedy_digits(r, e, budget);
        let (r2, b2) = if budget > 0 && 3 * r > t {
            (r - w, budget - 1)
        } else if budget > 0 && 3 * r < -t {
            (r + w, budget - 1)
        } else {
            (r, budget)
        };
        let rest = greedy_digits(r2, (e - 1) as nat, b2);
        lemma_greedy_count(r2, (e - 1) as nat, b2);
        assert(s.drop_first() =~= rest);
    }
}

/// Returns `(ceil_log2(x), 2^ceil_log2(x))`.
fn width_and_threshold(x: u64) -> (res: (Ghost<nat>, u64))
    requires
        1 <= x <= 0x1_0000_0000,
    ensures
        res.0@ == ceil_log2(x as nat),
        res.1 == pow2(res.0@),
        x <= res.1 <= 2 * x,
{
    let mut t: u64 = x;
    let mut p: u64 = 1;
    let ghost mut e: nat = 0;
    proof {
        lemma_ceil_log2_bounds(x as nat);
    }
    while t > 1
        invariant
            1 <= t <= x <= 0x1_0000_0000,
            e + ceil_log2(t as nat) == ceil_log2(x as nat),
            p == pow2(e),
            p * pow2(ceil_log2(t as nat)) == pow2(ceil_log2(x as nat)),
            x <= pow2(ceil_log2(x as nat)) <= 2 * x,
        decreases t,
    {
        let ghost t_old = t;
        t = (t + 1) / 2;
        proof {
            lemma_pow2_positive(ceil_log2(t as nat));
            assert(pow2(ceil_log2(t_old as nat)) == 2 * pow2(ceil_log2(t as nat)));
            assert(p * pow2(ceil_log2(t_old as nat)) == (2 * p) * pow2(ceil_log2(t as nat)))
                by (nonlinear_arith)
                requires
                    pow2(ceil_log2(t_old as nat)) == 2 * pow2(ceil_log2(t as nat)),
            ;
            assert(p * 2 <= p * pow2(ceil_log2(t_old as nat))) by (nonlinear_arith)
                requires
                    pow2(ceil_log2(t_old as nat)) >= 2,
            ;
            e = e + 1;
        }
        p = p * 2;
    }
    (Ghost(e), p)
}

/// The shared greedy loop of both integer encoders: digits of `v` (non-zero) over
/// `int_width(v)` positions with budget `budget`.
fn greedy_encode(v: i32, budget: i64) -> (r: String)
    requires
        v != 0,
        budget >= i32::MIN,
    ensures
        r@ == greedy_digits(v as int, int_width(v as int), budget as int),
{
    let mag: i64 = if v < 0 {
        -(v as i64)
    } else {
        v as i64
    };
    let x: u64 = (mag * 3 / 2) as u64;
    let (Ghost(width), top) = width_and_threshold(x);
    let mut value: i64 = v as i64;
    let mut p2n: i64 = top as i64;
    let mut nnz_remaining: i64 = budget;
    let mut out = String::new();
    let ghost mut k: nat = width;
    proof {
        reveal_strlit("+");
        reveal_strlit("-");
        reveal_strlit("0");
    }
    while p2n > 1
        invariant
            width == int_width(v as int),
            p2n == pow2(k),
            top <= 0x2_0000_0000,
            abs(value as int) <= mag + top,
            mag <= 0x8000_0000,
            i32::MIN <= nnz_remaining,
            out@ + greedy_digits(value as int, k, nnz_remaining as int) == greedy_digits(
                v as int,
                width,
                budget as int,
            ),
            "+"@ == seq!['+'],
            "-"@ == seq!['-'],
            "0"@ == seq!['0'],
        decreases p2n,
    {
        proof {
            lemma_pow2_positive(k);
            if k == 0 {
                assert(false);
            }
        }
        let ghost kk = (k - 1) as nat;
        let ghost before = out@;
        let half = p2n / 2;
        let det = 3 * value;
        if nnz_remaining > 0 && det > p2n {
            out.append("+");
            value = value - half;
            nnz_remaining = nnz_remaining - 1;
            proof {
                assert(before + greedy_digits(value + half, k, nnz_remaining + 1) =~= out@
                    + greedy_digits(value as int, kk, nnz_remaining as int));
            }
        } else if nnz_remaining > 0 && det < -p2n {
            out.append("-");
            value = value + half;
            nnz_remaining = nnz_remaining - 1;
            proof {
                assert(before + greedy_digits(value - half, k, nnz_remaining + 1) =~= out@
                    + greedy_digits(value as int, kk, nnz_remaining as int));
            }
        } else {
            out.append("0");
            proof {
                assert(before + greedy_digits(value as int, k, nnz_remaining as int) =~= out@
                    + greedy_digits(value as int, kk, nnz_remaining as int));
            }
        }
        p2n = half;
        proof {
            k = kk;
        }
    }
    proof {
        lemma_pow2_positive(k);
        assert(out@ =~= out@ + greedy_digits(value as int, k, nnz_remaining as int));
    }
    out
}

/// CSD string of an integer: `"0"` for zero, otherwise one digit per position of
/// `int_width(v)`, most significant first.
pub fn to_csd_i(decimal_value: i32) -> (r: String)
    ensures
        r@ == csd_of_int(decimal_value as int),
{
    if decimal_value == 0 {
        proof {
            reveal_strlit("0");
        }
        return String::from_str("0");
    }
    let r = greedy_encode(decimal_value, 0x2_0000_0000);
    proof {
        let w = int_width(decimal_value as int);
        let x = (abs(decimal_value as int) * 3 / 2) as nat;
        assert(x <= 0x1_0000_0000);
        lemma_ceil_log2_bounds(x);
        lemma_pow2_positive(w);
        lemma_greedy_budget_unused(decimal_value as int, w, 0x2_0000_0000, w as int);
    }
    r
}

/// CSD string of an integer with at most `nnz` non-zero digits: `"0"` for zero, otherwise
/// the greedy digits over `int_width(v)` positions where, once `nnz` non-zero digits have
/// been given, every later position is `0`.
pub fn to_csdnnz_i(decimal_value: i32, nnz: i32) -> (r: String)
    ensures
        r@ == csd_of_int_bounded(decimal_value as int, nnz as int),
{
    if decimal_value == 0 {
        proof {
            reveal_strlit("0");
        }
        return String::from_str("0");
    }
    greedy_encode(decimal_value, nnz as i64)
}

} // verus!
