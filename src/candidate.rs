//! Choosing, for each declared file, the local file that most likely holds it.

use vstd::prelude::*;
use crate::path::{
    common_prefix_count, common_prefix_len, common_suffix_count, common_suffix_len, components_of,
    lemma_path_lt_total_order, path_less, path_lt, split_components,
};
use crate::index::{bucket_of, SizeIndex};
use crate::torrent::File;

verus! {

/// Leading components that a candidate shares with the hint (none without one).
pub open spec fn hint_prefix(c: Seq<Seq<char>>, hint: Option<Seq<Seq<char>>>) -> int {
    match hint {
        Some(h) => common_prefix_len(c, h),
        None => 0,
    }
}

/// Candidate `a` scores below candidate `b` for the declared `path`: fewer
/// shared trailing components; or as many and fewer leading components shared
/// with the hint; or both equal and `a` first in the order of paths.
pub open spec fn score_lt(path: Seq<Seq<char>>, hint: Option<Seq<Seq<char>>>, a: Seq<Seq<char>>, b: Seq<Seq<char>>) -> bool {
    let sa = common_suffix_len(a, path);
    let sb = common_suffix_len(b, path);
    let pa = hint_prefix(a, hint);
    let pb = hint_prefix(b, hint);
    sa < sb || (sa == sb && (pa < pb || (pa == pb && path_lt(a, b))))
}

/// Candidate `i` has the highest score, and is the last one with that score.
pub open spec fn is_best_candidate(
    path: Seq<Seq<char>>,
    hint: Option<Seq<Seq<char>>>,
    cands: Seq<Seq<Seq<char>>>,
    i: int,
) -> bool {
    &&& 0 <= i < cands.len()
    &&& forall|j: int| 0 <= j < cands.len() ==> !score_lt(path, hint, #[trigger] cands[i], cands[j])
    &&& forall|j: int| i < j < cands.len() ==> score_lt(path, hint, #[trigger] cands[j], cands[i])
}

pub open spec fn hint_view(h: &Option<Vec<String>>) -> Option<Seq<Seq<char>>> {
    match h {
        Some(v) => Some(v.deep_view()),
        None => None,
    }
}

proof fn lemma_score_order(
    path: Seq<Seq<char>>,
    hint: Option<Seq<Seq<char>>>,
    a: Seq<Seq<char>>,
    b: Seq<Seq<char>>,
    c: Seq<Seq<char>>,
)
    ensures
        !score_lt(path, hint, b, a) && !score_lt(path, hint, c, b) ==> !score_lt(path, hint, c, a),
{
    lemma_path_lt_total_order(c, b, a);
    lemma_path_lt_total_order(b, a, c);
    lemma_path_lt_total_order(a, c, b);
    lemma_path_lt_total_order(c, a, b);
}

/// At most one candidate is the best: the choice is fixed by the declared
/// path, the hint and the candidates.
pub proof fn lemma_best_candidate_unique(
    path: Seq<Seq<char>>,
    hint: Option<Seq<Seq<char>>>,
    cands: Seq<Seq<Seq<char>>>,
    i: int,
    j: int,
)
    requires
        is_best_candidate(path, hint, cands, i),
        is_best_candidate(path, hint, cands, j),
    ensures
        i == j,
{
    if i < j {
        assert(score_lt(path, hint, cands[j], cands[i]));
        assert(!score_lt(path, hint, cands[j], cands[i]));
    } else if j < i {
        assert(score_lt(path, hint, cands[i], cands[j]));
        assert(!score_lt(path, hint, cands[i], cands[j]));
    }
}

fn hint_prefix_count(c: &Vec<String>, hint: &Option<Vec<String>>) -> (r: usize)
    ensures
        r == hint_prefix(c.deep_view(), hint_view(hint)),
{
    match hint {
        Some(h) => common_prefix_count(c, h),
        None => 0,
    }
}

/// Picks the candidate with the highest score for the declared `path`; `None`
/// when there are no candidates.
pub fn best_candidate_index(path: &Vec<String>, candidates: &Vec<Vec<String>>, hint: &Option<Vec<String>>) -> (r: Option<usize>)
    ensures
        r is None <==> candidates@.len() == 0,
        r matches Some(i) ==> is_best_candidate(path.deep_view(), hint_view(hint), candidates.deep_view(), i as int),
{
    if candidates.len() == 0 {
        return None;
    }
    let ghost pv = path.deep_view();
    let ghost hv = hint_view(hint);
    let ghost cv = candidates.deep_view();
    let mut best: usize = 0;
    let mut best_s = common_suffix_count(&candidates[0], path);
    let mut best_p = hint_prefix_count(&candidates[0], hint);
    let mut j: usize = 1;
    proof {
        lemma_path_lt_total_order(cv[0], cv[0], cv[0]);
    }
    while j < candidates.len()
        invariant
            pv == path.deep_view(),
            hv == hint_view(hint),
            cv == candidates.deep_view(),
            cv.len() == candidates@.len(),
            1 <= j <= cv.len(),
            best < j,
            best_s == common_suffix_len(cv[best as int], pv),
            best_p == hint_prefix(cv[best as int], hv),
            forall|k: int| 0 <= k < j ==> !score_lt(pv, hv, cv[best as int], #[trigger] cv[k]),
            forall|k: int| best < k < j ==> score_lt(pv, hv, #[trigger] cv[k], cv[best as int]),
        decreases cv.len() - j,
    {
        let s = common_suffix_count(&candidates[j], path);
        let p = hint_prefix_count(&candidates[j], hint);
        let below = s < best_s || (s == best_s && (p < best_p || (p == best_p && path_less(
            &candidates[j],
            &candidates[best],
        ))));
        if !below {
            proof {
                assert forall|k: int| 0 <= k < j + 1 implies !score_lt(pv, hv, cv[j as int], #[trigger] cv[k]) by {
                    lemma_score_order(pv, hv, cv[k], cv[best as int], cv[j as int]);
                    lemma_path_lt_total_order(cv[j as int], cv[j as int], cv[j as int]);
                }
            }
            best = j;
            best_s = s;
            best_p = p;
        } else {
            proof {
                lemma_path_lt_total_order(cv[j as int], cv[best as int], cv[j as int]);
            }
        }
        j = j + 1;
    }
    Some(best)
}

/// The components of each path in `v`.
pub open spec fn split_all(v: Seq<String>) -> Seq<Seq<Seq<char>>> {
    Seq::new(v.len(), |i: int| components_of(v[i]@))
}

pub open spec fn split_hint(h: &Option<String>) -> Option<Seq<Seq<char>>> {
    match h {
        Some(s) => Some(components_of(s@)),
        None => None,
    }
}

/// Picks, among the local paths `candidates`, the one with the highest score
/// for the declared `path` (see `best_candidate_index`), and returns it beside
/// `path`.
pub fn get_best_candidate(path: &str, candidates: &Vec<String>, preferred_prefix: &Option<String>) -> (r: Option<(String, String)>)
    ensures
        r is None <==> candidates@.len() == 0,
        r matches Some((p, c)) ==> p@ == path@ && exists|i: int|
            is_best_candidate(components_of(path@), split_hint(preferred_prefix), split_all(candidates@), i)
                && c@ == (#[trigger] candidates@[i])@,
{
    let p = split_components(path);
    let hint: Option<Vec<String>> = match preferred_prefix {
        Some(h) => Some(split_components(h.as_str())),
        None => None,
    };
    let mut split: Vec<Vec<String>> = Vec::new();
    let mut i: usize = 0;
    while i < candidates.len()
        invariant
            i <= candidates@.len(),
            split@.len() == i,
            forall|k: int| 0 <= k < i ==> (#[trigger] split@[k]).deep_view() == components_of(candidates@[k]@),
        decreases candidates@.len() - i,
    {
        split.push(split_components(candidates[i].as_str()));
        i = i + 1;
    }
    proof {
        assert(split.deep_view() =~= split_all(candidates@));
    }
    match best_candidate_index(&p, &split, &hint) {
        Some(k) => Some((path.to_string(), candidates[k].clone())),
        None => None,
    }
}


/// The first of the first `n` files with the largest length.
pub open spec fn first_largest(files: Seq<File>, n: int) -> int
    decreases n,
{
    if n <= 1 {
        0
    } else {
        let m = first_largest(files, n - 1);
        if files[n - 1].length > files[m].length {
            n - 1
        } else {
            m
        }
    }
}

/// The hint: the one candidate of the largest declared file, when it has
/// exactly one.
pub open spec fn largest_hint(files: Seq<File>, buckets: Seq<Seq<Seq<Seq<char>>>>) -> Option<Seq<Seq<char>>> {
    let m = first_largest(files, files.len() as int);
    if buckets[m].len() == 1 {
        Some(buckets[m][0])
    } else {
        None
    }
}

/// For each declared file `i`, the index in `buckets[i]` of its best candidate
/// under the hint of the largest file.
pub fn pick_candidates(files: &Vec<File>, buckets: &Vec<Vec<Vec<String>>>) -> (r: Vec<usize>)
    requires
        files@.len() == buckets@.len(),
        files@.len() > 0,
        forall|i: int| 0 <= i < buckets@.len() ==> (#[trigger] buckets@[i])@.len() > 0,
    ensures
        r@.len() == files@.len(),
        forall|i: int|
            0 <= i < r@.len() ==> is_best_candidate(
                files@[i].path.deep_view(),
                largest_hint(files@, buckets.deep_view()),
                buckets.deep_view()[i],
                #[trigger] r@[i] as int,
            ),
{
    let mut m: usize = 0;
    let mut i: usize = 1;
    while i < files.len()
        invariant
            1 <= i <= files@.len(),
            m == first_largest(files@, i as int),
            m < i,
        decreases files@.len() - i,
    {
        if files[i].length > files[m].length {
            m = i;
        }
        i = i + 1;
    }
    let hint: Option<Vec<String>> = if buckets[m].len() == 1 {
        Some(buckets[m][0].clone())
    } else {
        None
    };
    proof {
        assert(hint_view(&hint) == largest_hint(files@, buckets.deep_view()));
    }
    let mut r: Vec<usize> = Vec::new();
    let mut k: usize = 0;
    while k < files.len()
        invariant
            files@.len() == buckets@.len(),
            forall|i: int| 0 <= i < buckets@.len() ==> (#[trigger] buckets@[i])@.len() > 0,
            hint_view(&hint) == largest_hint(files@, buckets.deep_view()),
            k <= files@.len(),
            r@.len() == k,
            forall|i: int|
                0 <= i < k ==> is_best_candidate(
                    files@[i].path.deep_view(),
                    largest_hint(files@, buckets.deep_view()),
                    buckets.deep_view()[i],
                    #[trigger] r@[i] as int,
                ),
        decreases files@.len() - k,
    {
        assert(buckets@[k as int]@.len() > 0);
        let c = match best_candidate_index(&files[k].path, &buckets[k], &hint) {
            Some(c) => c,
            None => 0,
        };
        r.push(c);
        k = k + 1;
    }
    r
}

/// Why no mapping could be made: the declared file at `file_index` has no
/// local file of its length.
#[derive(Clone, Copy, Debug, PartialEq, Eq)]
pub struct NoCandidate {
    pub file_index: usize,
}

/// `chosen` is the best of the candidates `cands` for the declared `path`.
pub open spec fn is_best_path(
    path: Seq<Seq<char>>,
    hint: Option<Seq<Seq<char>>>,
    cands: Seq<Seq<Seq<char>>>,
    chosen: Seq<Seq<char>>,
) -> bool {
    exists|c: int| #[trigger] is_best_candidate(path, hint, cands, c) && cands[c] == chosen
}

/// The buckets of the declared files' lengths.
pub open spec fn buckets_of(files: Seq<File>, index: Seq<(u64, Seq<Seq<char>>)>) -> Seq<Seq<Seq<Seq<char>>>> {
    Seq::new(files.len(), |j: int| bucket_of(index, files[j].length))
}

/// The candidate chosen for a declared file is fixed by its inputs: two
/// choices that both meet the contract of the selection are the same path.
pub proof fn lemma_selection_deterministic(
    path: Seq<Seq<char>>,
    hint: Option<Seq<Seq<char>>>,
    cands: Seq<Seq<Seq<char>>>,
    a: Seq<Seq<char>>,
    b: Seq<Seq<char>>,
)
    requires
        is_best_path(path, hint, cands, a),
        is_best_path(path, hint, cands, b),
    ensures
        a == b,
{
    let i = choose|c: int| #[trigger] is_best_candidate(path, hint, cands, c) && cands[c] == a;
    let j = choose|c: int| #[trigger] is_best_candidate(path, hint, cands, c) && cands[c] == b;
    lemma_best_candidate_unique(path, hint, cands, i, j);
}

/// Matches each declared file to a local file of the same length: an error
/// names the first declared file with none; otherwise entry `i` is the best
/// candidate for file `i` among the local files of its length.
pub fn resolve_candidates(files: &Vec<File>, index: &SizeIndex) -> (r: Result<Vec<Vec<String>>, NoCandidate>)
    requires
        files@.len() > 0,
    ensures
        r matches Err(e) ==> e.file_index < files@.len() && bucket_of(index@, files@[e.file_index as int].length).len() == 0
            && forall|i: int| 0 <= i < e.file_index ==> bucket_of(index@, (#[trigger] files@[i]).length).len() > 0,
        r is Ok <==> forall|i: int| 0 <= i < files@.len() ==> bucket_of(index@, (#[trigger] files@[i]).length).len() > 0,
        r matches Ok(m) ==> m@.len() == files@.len() && forall|i: int|
            0 <= i < files@.len() ==> is_best_path(
                files@[i].path.deep_view(),
                largest_hint(files@, buckets_of(files@, index@)),
                bucket_of(index@, files@[i].length),
                (#[trigger] m@[i]).deep_view(),
            ),
{
    let mut buckets: Vec<Vec<Vec<String>>> = Vec::new();
    let mut i: usize = 0;
    while i < files.len()
        invariant
            i <= files@.len(),
            buckets@.len() == i,
            forall|j: int| 0 <= j < i ==> (#[trigger] buckets@[j]).deep_view() == bucket_of(index@, files@[j].length),
            forall|j: int| 0 <= j < i ==> bucket_of(index@, (#[trigger] files@[j]).length).len() > 0,
        decreases files@.len() - i,
    {
        let b = index.bucket(files[i].length);
        if b.len() == 0 {
            return Err(NoCandidate { file_index: i });
        }
        buckets.push(b);
        i = i + 1;
    }
    let ghost bv = buckets_of(files@, index@);
    proof {
        assert(buckets.deep_view() =~= bv);
    }
    let picks = pick_candidates(files, &buckets);
    let mut m: Vec<Vec<String>> = Vec::new();
    let mut k: usize = 0;
    while k < files.len()
        invariant
            buckets.deep_view() == bv,
            bv == buckets_of(files@, index@),
            picks@.len() == files@.len(),
            buckets@.len() == files@.len(),
            forall|i: int|
                0 <= i < picks@.len() ==> is_best_candidate(
                    files@[i].path.deep_view(),
                    largest_hint(files@, bv),
                    bv[i],
                    #[trigger] picks@[i] as int,
                ),
            k <= files@.len(),
            m@.len() == k,
            forall|i: int|
                0 <= i < k ==> is_best_path(
                    files@[i].path.deep_view(),
                    largest_hint(files@, bv),
                    bv[i],
                    (#[trigger] m@[i]).deep_view(),
                ),
        decreases files@.len() - k,
    {
        let c = picks[k];
        assert(is_best_candidate(files@[k as int].path.deep_view(), largest_hint(files@, bv), bv[k as int], c as int));
        assert(buckets.deep_view()[k as int] == buckets@[k as int].deep_view());
        let chosen = buckets[k][c].clone();
        let ghost old_m = m@;
        m.push(chosen);
        proof {
            assert(chosen.deep_view() == bv[k as int][c as int]);
            assert forall|i: int| 0 <= i < k + 1 implies is_best_path(
                files@[i].path.deep_view(),
                largest_hint(files@, bv),
                bv[i],
                (#[trigger] m@[i]).deep_view(),
            ) by {
                if i == k {
                    assert(m@[i] == chosen);
                } else {
                    assert(m@[i] == old_m[i]);
                }
            }
        }
        k = k + 1;
    }
    Ok(m)
}

} // verus!
