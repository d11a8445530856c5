//! Longest repeated substring whose two occurrences do not overlap.
use vstd::prelude::*;
use crate::csd::chars_of;

verus! {

/// For `1 <= i < j <= s.len()`: how many characters the run of equal characters ending at
/// `s[i - 1]` and `s[j - 1]` counts, where a run that has reached the gap `j - i` starts over,
/// so that the two windows it describes never overlap. Zero for any other pair.
pub open spec fn run_len(s: Seq<char>, i: int, j: int) -> nat
    decreases i,
{
    if i <= 0 || j <= i || j > s.len() {
        0
    } else if s[i - 1] == s[j - 1] && run_len(s, i - 1, j - 1) < j - i {
        run_len(s, i - 1, j - 1) + 1
    } else {
        0
    }
}

/// `(i, j)` is a cell of the table: `1 <= i < j <= s.len()`.
pub open spec fn is_cell(s: Seq<char>, i: int, j: int) -> bool {
    1 <= i < j <= s.len()
}

/// Cell `(a, b)` comes before cell `(i, j)` when the table is read row by row.
pub open spec fn cell_before(a: int, b: int, i: int, j: int) -> bool {
    a < i || (a == i && b < j)
}

/// `(i, j)` is the first cell, row by row, that holds the largest run of the table, and that
/// run is not empty.
pub open spec fn is_first_longest(s: Seq<char>, i: int, j: int) -> bool {
    &&& is_cell(s, i, j)
    &&& run_len(s, i, j) > 0
    &&& forall|a: int, b: int| is_cell(s, a, b) ==> #[trigger] run_len(s, a, b) <= run_len(s, i, j)
    &&& forall|a: int, b: int|
        is_cell(s, a, b) && cell_before(a, b, i, j) ==> #[trigger] run_len(s, a, b) < run_len(
            s,
            i,
            j,
        )
}

/// A run counts at most `i` characters and at most the gap `j - i`.
pub proof fn lemma_run_len_bounds(s: Seq<char>, i: int, j: int)
    ensures
        i >= 0 ==> run_len(s, i, j) <= i,
        run_len(s, i, j) <= j - i || run_len(s, i, j) == 0,
    decreases i,
{
    if i > 0 && j > i && j <= s.len() {
        lemma_run_len_bounds(s, i - 1, j - 1);
    }
}

/// A run of `k` characters at cell `(i, j)` is a substring that occurs twice without overlap:
/// it ends before index `i` and again before index `j`, and `k <= j - i`.
pub proof fn law_run_is_repeat(s: Seq<char>, i: int, j: int)
    requires
        is_cell(s, i, j),
    ensures
        run_len(s, i, j) <= j - i,
        s.subrange(i - run_len(s, i, j), i) == s.subrange(j - run_len(s, i, j), j),
    decreases i,
{
    lemma_run_len_bounds(s, i, j);
    let k = run_len(s, i, j) as int;
    if k > 0 {
        if i > 1 {
            law_run_is_repeat(s, i - 1, j - 1);
        }
        lemma_run_len_bounds(s, i - 1, j - 1);
        assert(s.subrange(i - k, i) =~= s.subrange(i - k, i - 1).push(s[i - 1]));
        assert(s.subrange(j - k, j) =~= s.subrange(j - k, j - 1).push(s[j - 1]));
    } else {
        assert(s.subrange(i, i) =~= s.subrange(j, j));
    }
}

/// Walking the diagonal of a repeat `s[a..a+k] == s[b..b+k]` (with `a + k <= b`): after `t` of
/// its characters either the run there counts at least `t`, or some cell already holds `k`.
proof fn lemma_repeat_diagonal(s: Seq<char>, a: int, b: int, k: int, t: int) -> (cell: (int, int))
    requires
        0 <= a,
        a + k <= b,
        b + k <= s.len(),
        1 <= t <= k,
        forall|q: int| 0 <= q < k ==> #[trigger] s[a + q] == s[b + q],
    ensures
        is_cell(s, cell.0, cell.1),
        run_len(s, cell.0, cell.1) >= k || (cell == (a + t, b + t) && run_len(s, cell.0, cell.1)
            >= t),
    decreases t,
{
    if t == 1 {
        assert(s[a + 0] == s[b + 0]);
        if run_len(s, a, b) < b - a {
            (a + 1, b + 1)
        } else {
            (a, b)
        }
    } else {
        let c = lemma_repeat_diagonal(s, a, b, k, t - 1);
        if run_len(s, c.0, c.1) >= k {
            c
        } else {
            assert(s[a + (t - 1)] == s[b + (t - 1)]);
            (a + t, b + t)
        }
    }
}

/// Any substring of length `k >= 1` that occurs twice without overlap, at `a` and at `b`, leaves
/// a non-zero table, and the run of its first longest cell (the one the search returns) counts
/// at least `k` characters.
pub proof fn law_longest_is_maximal(s: Seq<char>, a: int, b: int, k: int)
    requires
        k >= 1,
        0 <= a,
        a + k <= b,
        b + k <= s.len(),
        s.subrange(a, a + k) == s.subrange(b, b + k),
    ensures
        !(forall|x: int, y: int| is_cell(s, x, y) ==> #[trigger] run_len(s, x, y) == 0),
        forall|i: int, j: int| #[trigger] is_first_longest(s, i, j) ==> run_len(s, i, j) >= k,
{
    assert forall|q: int| 0 <= q < k implies #[trigger] s[a + q] == s[b + q] by {
        let x = s.subrange(a, a + k);
        let y = s.subrange(b, b + k);
        assert(x[q] == s[a + q]);
        assert(y[q] == s[b + q]);
        assert(x[q] == y[q]);
    }
    let c = lemma_repeat_diagonal(s, a, b, k, k);
    assert(run_len(s, c.0, c.1) >= k);
}

/// The longest substring of `cs` that occurs twice without overlap, found with the run table
/// `run_len`: the run of the first cell, row by row, that holds the table's largest value, or
/// the empty string when no character repeats.
pub fn longest_repeated_substring(cs: &str) -> (r: String)
    ensures
        (forall|a: int, b: int| is_cell(cs@, a, b) ==> #[trigger] run_len(cs@, a, b) == 0)
            ==> r@ == Seq::<char>::empty(),
        !(forall|a: int, b: int| is_cell(cs@, a, b) ==> #[trigger] run_len(cs@, a, b) == 0)
            ==> exists|i: int, j: int|
            #[trigger] is_first_longest(cs@, i, j) && r@ == cs@.subrange(
                i - run_len(cs@, i, j),
                i,
            ),
{
    let ghost s = cs@;
    let chars = chars_of(cs);
    let n = chars.len();
    // Row `i` of the table is kept with `run_len(s, i, j)` at index `j - 1`.
    let mut prev: Vec<usize> = vec![0usize; n];
    let mut res_length: usize = 0;
    let mut index: usize = 0;
    let ghost mut best_j: int = 0;
    let mut row: usize = 0;
    while row < n
        invariant
            n == s.len(),
            chars@ == s,
            row <= n,
            prev@.len() == n,
            forall|b: int| 0 <= b < n ==> #[trigger] prev@[b] == run_len(s, row as int, b + 1),
            forall|a: int, b: int|
                is_cell(s, a, b) && a <= row ==> #[trigger] run_len(s, a, b) <= res_length,
            res_length == 0 || (is_cell(s, index as int, best_j) && index <= row && run_len(
                s,
                index as int,
                best_j,
            ) == res_length && forall|a: int, b: int|
                is_cell(s, a, b) && cell_before(a, b, index as int, best_j) ==> #[trigger] run_len(
                    s,
                    a,
                    b,
                ) < res_length),
        decreases n - row,
    {
        let i = row + 1;
        let mut cur: Vec<usize> = vec![0usize; n];
        proof {
            assert forall|b: int| 0 <= b < i implies #[trigger] cur@[b] == run_len(
                s,
                i as int,
                b + 1,
            ) by {
                assert(cur@[b] == 0);
            }
        }
        let mut col: usize = i;
        while col < n
            invariant
                n == s.len(),
                chars@ == s,
                i == row + 1,
                1 <= i <= n,
                i <= col <= n,
                prev@.len() == n,
                cur@.len() == n,
                forall|b: int| 0 <= b < n ==> #[trigger] prev@[b] == run_len(s, i - 1, b + 1),
                forall|b: int| 0 <= b < col ==> #[trigger] cur@[b] == run_len(s, i as int, b + 1),
                forall|a: int, b: int|
                    is_cell(s, a, b) && cell_before(a, b, i as int, col + 1) ==> #[trigger] run_len(
                        s,
                        a,
                        b,
                    ) <= res_length,
                res_length == 0 || (is_cell(s, index as int, best_j) && cell_before(
                    index as int,
                    best_j,
                    i as int,
                    col + 1,
                ) && run_len(s, index as int, best_j) == res_length && forall|a: int, b: int|
                    is_cell(s, a, b) && cell_before(a, b, index as int, best_j) ==> #[trigger] run_len(
                        s,
                        a,
                        b,
                    ) < res_length),
            decreases n - col,
        {
            let j = col + 1;
            proof {
                lemma_run_len_bounds(s, i - 1, j - 1);
            }
            if chars[i - 1] == chars[j - 1] && prev[j - 2] < j - i {
                let v = prev[j - 2] + 1;
                cur.set(j - 1, v);
                if v > res_length {
                    res_length = v;
                    index = i;
                    proof {
                        best_j = j as int;
                    }
                }
            } else {
                cur.set(j - 1, 0);
            }
            col = col + 1;
        }
        prev = cur;
        row = row + 1;
    }
    if res_length > 0 {
        proof {
            lemma_run_len_bounds(s, index as int, best_j);
            assert(is_first_longest(s, index as int, best_j));
        }
        let sub = cs.substring_char(index - res_length, index);
        String::from_str(sub)
    } else {
        String::new()
    }
}

} // verus!
