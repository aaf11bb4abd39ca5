//! The edit distance between two strings.

use vstd::prelude::*;

verus! {

pub open spec fn min3(a: int, b: int, c: int) -> int {
    if a <= b && a <= c {
        a
    } else if b <= c {
        b
    } else {
        c
    }
}

/// The least number of single-character insertions, deletions and
/// replacements that turn the first `i` characters of `x` into the first `j`
/// characters of `y`.
pub open spec fn lev(x: Seq<char>, y: Seq<char>, i: int, j: int) -> int
    decreases i + j,
{
    if i <= 0 {
        if j <= 0 { 0 } else { j }
    } else if j <= 0 {
        i
    } else if x[i - 1] == y[j - 1] {
        lev(x, y, i - 1, j - 1)
    } else {
        1 + min3(lev(x, y, i - 1, j - 1), lev(x, y, i, j - 1), lev(x, y, i - 1, j))
    }
}

proof fn lemma_lev_bounds(x: Seq<char>, y: Seq<char>, i: int, j: int)
    requires
        0 <= i,
        0 <= j,
    ensures
        0 <= lev(x, y, i, j) <= i + j,
    decreases i + j,
{
    if i > 0 && j > 0 {
        lemma_lev_bounds(x, y, i - 1, j - 1);
        lemma_lev_bounds(x, y, i, j - 1);
        lemma_lev_bounds(x, y, i - 1, j);
    }
}

/// The Levenshtein distance between `x` and `y`, in characters.
pub fn edit_distance(x: &str, y: &str) -> (r: usize)
    requires
        x@.len() + y@.len() <= usize::MAX,
    ensures
        r == lev(x@, y@, x@.len() as int, y@.len() as int),
{
    let n = x.unicode_len();
    let m = y.unicode_len();
    let mut prev: Vec<usize> = Vec::new();
    prev.push(0);
    let mut i: usize = 0;
    while i < n
        invariant
            n == x@.len(),
            n + m <= usize::MAX,
            i <= n,
            prev@.len() == i + 1,
            forall|k: int| 0 <= k <= i ==> #[trigger] prev@[k] == lev(x@, y@, k, 0),
        decreases n - i,
    {
        prev.push(i + 1);
        i = i + 1;
    }
    let mut j: usize = 0;
    while j < m
        invariant
            n == x@.len(),
            m == y@.len(),
            n + m <= usize::MAX,
            j <= m,
            prev@.len() == n + 1,
            forall|k: int| 0 <= k <= n ==> #[trigger] prev@[k] == lev(x@, y@, k, j as int),
        decreases m - j,
    {
        let yc = y.get_char(j);
        let mut current: Vec<usize> = Vec::new();
        current.push(j + 1);
        let mut i: usize = 0;
        while i < n
            invariant
                n == x@.len(),
                m == y@.len(),
                n + m <= usize::MAX,
                j < m,
                yc == y@[j as int],
                i <= n,
                prev@.len() == n + 1,
                current@.len() == i + 1,
                forall|k: int| 0 <= k <= n ==> #[trigger] prev@[k] == lev(x@, y@, k, j as int),
                forall|k: int| 0 <= k <= i ==> #[trigger] current@[k] == lev(x@, y@, k, j + 1),
            decreases n - i,
        {
            proof {
                lemma_lev_bounds(x@, y@, i as int, j as int);
                lemma_lev_bounds(x@, y@, i as int + 1, j as int);
                lemma_lev_bounds(x@, y@, i as int, j as int + 1);
            }
            let v = if x.get_char(i) == yc {
                prev[i]
            } else {
                let a = prev[i] + 1;
                let b = current[i] + 1;
                let c = prev[i + 1] + 1;
                if a <= b && a <= c {
                    a
                } else if b <= c {
                    b
                } else {
                    c
                }
            };
            current.push(v);
            i = i + 1;
        }
        prev = current;
        j = j + 1;
    }
    prev[n]
}

} // verus!
