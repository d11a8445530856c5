//! Reading a CSD string into its signed digits, split at the point.
use vstd::prelude::*;
use crate::csd::{chars_of, digit_value};

verus! {

/// The signed digit of each character: `1` for `+`, `-1` for `-`, `0` for anything else.
pub open spec fn digit_values(s: Seq<char>) -> Seq<i8> {
    s.map_values(|c: char| digit_value(c) as i8)
}

/// `s` holds two or more `.`.
pub open spec fn has_two_points(s: Seq<char>) -> bool {
    exists|i: int, j: int| 0 <= i < j < s.len() && #[trigger] s[i] == '.' && #[trigger] s[j] == '.'
}

/// The signed digits of a CSD string: the digits left of its point, then those right of it
/// (none when there is no point). `None` when the string holds more than one point. The
/// value it stands for weighs the last integral digit `1` and the first fractional one `1/2`.
pub fn decode_digits(csd: &str) -> (r: Option<(Vec<i8>, Vec<i8>)>)
    ensures
        r is None <==> has_two_points(csd@),
        (forall|i: int| 0 <= i < csd@.len() ==> #[trigger] csd@[i] != '.') ==> r is Some
            && r->Some_0.0@ == digit_values(csd@) && r->Some_0.1@.len() == 0,
        forall|p: int|
            0 <= p < csd@.len() && #[trigger] csd@[p] == '.' && r is Some ==> r->Some_0.0@
                == digit_values(csd@.subrange(0, p)) && r->Some_0.1@ == digit_values(
                csd@.subrange(p + 1, csd@.len() as int),
            ),
{
    let c = chars_of(csd);
    let n = c.len();
    let ghost s = c@;
    let mut point: usize = n;
    let mut k: usize = 0;
    while k < n
        invariant
            n == s.len(),
            c@ == s,
            s == csd@,
            k <= n,
            point == n || (point < k && s[point as int] == '.'),
            forall|i: int| 0 <= i < k && i != point ==> #[trigger] s[i] != '.',
        decreases n - k,
    {
        if c[k] == '.' {
            if point < n {
                assert(s[point as int] == '.' && s[k as int] == '.');
                return None;
            }
            point = k;
        }
        k = k + 1;
    }
    let mut integral: Vec<i8> = Vec::new();
    let mut fractional: Vec<i8> = Vec::new();
    let mut i: usize = 0;
    while i < n
        invariant
            n == s.len(),
            c@ == s,
            i <= n,
            point <= n,
            integral@ == digit_values(s.subrange(0, if i < point { i as int } else { point as int })),
            fractional@ == digit_values(s.subrange(
                if i <= point { point as int } else { point + 1 },
                if i <= point { point as int } else { i as int },
            )),
        decreases n - i,
    {
        let ch = c[i];
        let d: i8 = if ch == '+' {
            1
        } else if ch == '-' {
            -1
        } else {
            0
        };
        if i < point {
            integral.push(d);
        } else if i > point {
            fractional.push(d);
        }
        i = i + 1;
        assert(integral@ =~= digit_values(s.subrange(0, if i < point { i as int } else { point as int })));
        assert(fractional@ =~= digit_values(s.subrange(
                if i <= point { point as int } else { point + 1 },
                if i <= point { point as int } else { i as int },
            )));
    }
    proof {
        assert(!has_two_points(s));
        if point == n {
            assert(s.subrange(0, point as int) =~= s);
        }
    }
    Some((integral, fractional))
}

} // verus!
