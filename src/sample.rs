//! Choosing which pieces to hash: a random few of the pieces that cover each file.

use vstd::prelude::*;
use crate::torrent::{min_int, Info, Piece};

verus! {

broadcast use vstd::seq_lib::group_to_multiset_ensures;

/// Piece `piece` has a slice of file `file`.
pub open spec fn piece_covers(piece: Piece, file: int) -> bool {
    exists|k: int| 0 <= k < piece.file_slices@.len() && (#[trigger] piece.file_slices@[k]).file_index == file
}

/// Piece `p` covers at least one declared file.
pub open spec fn covers_some_file(info: &Info, p: int) -> bool {
    exists|f: int| 0 <= f < info.files@.len() && #[trigger] piece_covers(info.pieces@[p], f)
}

/// Indices, in order, of the first `n` pieces that cover `file`.
pub open spec fn covering(pieces: Seq<Piece>, file: int, n: int) -> Seq<usize>
    decreases n,
{
    if n <= 0 || pieces.len() < n {
        Seq::empty()
    } else if piece_covers(pieces[n - 1], file) {
        covering(pieces, file, n - 1).push((n - 1) as usize)
    } else {
        covering(pieces, file, n - 1)
    }
}

/// Indices, in order, of the pieces that cover `file`.
pub open spec fn covering_pieces(info: &Info, file: int) -> Seq<usize> {
    covering(info.pieces@, file, info.pieces@.len() as int)
}

/// Relies on `rand::seq::SliceRandom::shuffle` with the thread's generator:
/// it swaps elements, so the result is a permutation of the input.
#[verifier::external_body]
fn shuffle(v: &mut Vec<usize>)
    ensures
        final(v)@.to_multiset() == old(v)@.to_multiset(),
{
    rand::seq::SliceRandom::shuffle(v.as_mut_slice(), &mut rand::rng())
}

/// Whether `piece` has a slice of file `file`.
pub fn covers(piece: &Piece, file: usize) -> (r: bool)
    ensures
        r == piece_covers(*piece, file as int),
{
    let mut k: usize = 0;
    while k < piece.file_slices.len()
        invariant
            k <= piece.file_slices@.len(),
            forall|j: int| 0 <= j < k ==> (#[trigger] piece.file_slices@[j]).file_index != file,
        decreases piece.file_slices@.len() - k,
    {
        if piece.file_slices[k].file_index == file {
            return true;
        }
        k = k + 1;
    }
    false
}

/// The indices of the pieces that cover file `file`, in order.
pub fn pieces_covering(info: &Info, file: usize) -> (r: Vec<usize>)
    ensures
        r@ == covering_pieces(info, file as int),
{
    let mut r: Vec<usize> = Vec::new();
    let mut p: usize = 0;
    while p < info.pieces.len()
        invariant
            p <= info.pieces@.len(),
            r@ == covering(info.pieces@, file as int, p as int),
        decreases info.pieces@.len() - p,
    {
        if covers(&info.pieces[p], file) {
            r.push(p);
        }
        p = p + 1;
    }
    r
}

/// Every index in `covering` is that of a piece that covers the file.
proof fn lemma_covering(pieces: Seq<Piece>, file: int, n: int)
    requires
        0 <= n <= pieces.len(),
        pieces.len() <= usize::MAX,
    ensures
        forall|i: int| 0 <= i < covering(pieces, file, n).len() ==> {
            let p = #[trigger] covering(pieces, file, n)[i];
            p < n && piece_covers(pieces[p as int], file)
        },
        covering(pieces, file, n).no_duplicates(),
    decreases n,
{
    if n > 0 {
        lemma_covering(pieces, file, n - 1);
        let prev = covering(pieces, file, n - 1);
        if piece_covers(pieces[n - 1], file) {
            let cur = covering(pieces, file, n);
            assert forall|i: int| 0 <= i < prev.len() implies #[trigger] cur[i] == prev[i] by {}
            assert forall|a: int, b: int| 0 <= a < cur.len() && 0 <= b < cur.len() && a != b implies cur[a] != cur[b] by {
                if a < prev.len() && b < prev.len() {
                    assert(prev[a] != prev[b]);
                } else if a < prev.len() {
                    assert(prev[a] < n - 1);
                } else if b < prev.len() {
                    assert(prev[b] < n - 1);
                }
            }
        }
    }
}

/// Adds `x` to `r` unless it is there already.
fn insert_unique(r: &mut Vec<usize>, x: usize)
    requires
        old(r)@.no_duplicates(),
    ensures
        final(r)@.no_duplicates(),
        final(r)@.to_set() == old(r)@.to_set().insert(x),
{
    let mut i: usize = 0;
    while i < r.len()
        invariant
            r@ == old(r)@,
            r@.no_duplicates(),
            i <= r@.len(),
            forall|j: int| 0 <= j < i ==> r@[j] != x,
        decreases r@.len() - i,
    {
        if r[i] == x {
            assert(r@.to_set() =~= r@.to_set().insert(x)) by {
                assert(r@.contains(x));
            }
            assert(r@.no_duplicates());
            return;
        }
        i = i + 1;
    }
    let ghost before = r@;
    r.push(x);
    assert forall|y: usize| r@.contains(y) implies before.contains(y) || y == x by {
        let j = choose|j: int| 0 <= j < r@.len() && r@[j] == y;
        if j < before.len() {
            assert(before[j] == y);
        }
    }
    assert forall|y: usize| before.contains(y) || y == x implies r@.contains(y) by {
        if y == x {
            assert(r@[before.len() as int] == x);
        } else {
            let j = choose|j: int| 0 <= j < before.len() && before[j] == y;
            assert(r@[j] == y);
        }
    }
    assert forall|y: usize| #[trigger] r@.to_set().contains(y) == before.to_set().insert(x).contains(y) by {
        if r@.contains(y) {
            assert(before.contains(y) || y == x);
        }
        if before.contains(y) || y == x {
            assert(r@.contains(y));
        }
    }
    assert(r@.to_set() =~= before.to_set().insert(x));
    assert(r@.no_duplicates()) by {
        assert forall|a: int, b: int| 0 <= a < r@.len() && 0 <= b < r@.len() && a != b implies r@[a] != r@[b] by {
            if a < before.len() && b < before.len() {
                assert(before[a] != before[b]);
            } else if a < before.len() {
                assert(before[a] != x);
            } else if b < before.len() {
                assert(before[b] != x);
            }
        }
    }
}

/// `s` lists `min(per_file, n)` distinct pieces that cover file `f`, where `n`
/// pieces cover it, and each of them is in `r`.
pub open spec fn is_sample_of(info: &Info, per_file: int, f: int, r: Seq<usize>, s: Seq<usize>) -> bool {
    let cov = covering_pieces(info, f);
    &&& s.len() == min_int(per_file, cov.len() as int)
    &&& s.no_duplicates()
    &&& forall|i: int| 0 <= i < s.len() ==> cov.contains(#[trigger] s[i]) && r.contains(s[i])
}

/// `r` holds a full sample of the pieces that cover file `f`.
pub open spec fn has_sample(info: &Info, per_file: int, f: int, r: Seq<usize>) -> bool {
    exists|s: Seq<usize>| #[trigger] is_sample_of(info, per_file, f, r, s)
}

/// Chooses the pieces to hash: for each file, `per_file` of the pieces that
/// cover it, picked at random, or all of them where fewer cover it. Each
/// chosen piece is listed once, and covers some file.
pub fn choose_pieces_to_test(info: &Info, per_file: usize) -> (r: Vec<usize>)
    ensures
        r@.no_duplicates(),
        forall|i: int| 0 <= i < r@.len() ==> #[trigger] r@[i] < info.pieces@.len(),
        forall|i: int| 0 <= i < r@.len() ==> covers_some_file(info, #[trigger] r@[i] as int),
        forall|f: int, p: usize|
            0 <= f < info.files@.len() && covering_pieces(info, f).len() <= per_file
                && #[trigger] covering_pieces(info, f).contains(p) ==> r@.to_set().contains(p),
        forall|f: int| 0 <= f < info.files@.len() ==> #[trigger] has_sample(info, per_file as int, f, r@),
        per_file == 0 ==> r@.len() == 0,
{
    let mut r: Vec<usize> = Vec::new();
    let mut f: usize = 0;
    while f < info.files.len()
        invariant
            f <= info.files@.len(),
            r@.no_duplicates(),
            forall|i: int| 0 <= i < r@.len() ==> #[trigger] r@[i] < info.pieces@.len(),
            forall|i: int| 0 <= i < r@.len() ==> covers_some_file(info, #[trigger] r@[i] as int),
            forall|g: int, p: usize|
                0 <= g < f && covering_pieces(info, g).len() <= per_file
                    && #[trigger] covering_pieces(info, g).contains(p) ==> r@.to_set().contains(p),
            forall|g: int| 0 <= g < f ==> #[trigger] has_sample(info, per_file as int, g, r@),
            per_file == 0 ==> r@.len() == 0,
        decreases info.files@.len() - f,
    {
        let mut cands = pieces_covering(info, f);
        let ghost unshuffled = cands@;
        let np = info.pieces.len();
        proof {
            lemma_covering(info.pieces@, f as int, info.pieces@.len() as int);
        }
        shuffle(&mut cands);
        let take = if per_file < cands.len() { per_file } else { cands.len() };
        let mut k: usize = 0;
        while k < take
            invariant
                take <= cands@.len(),
                take <= per_file,
                take == per_file || take == cands@.len(),
                k <= take,
                cands@.to_multiset() == unshuffled.to_multiset(),
                unshuffled == covering_pieces(info, f as int),
                forall|i: int| 0 <= i < unshuffled.len() ==> {
                    let p = #[trigger] unshuffled[i];
                    p < info.pieces@.len() && piece_covers(info.pieces@[p as int], f as int)
                },
                f < info.files@.len(),
                r@.no_duplicates(),
                forall|i: int| 0 <= i < r@.len() ==> #[trigger] r@[i] < info.pieces@.len(),
                forall|i: int| 0 <= i < r@.len() ==> covers_some_file(info, #[trigger] r@[i] as int),
                forall|g: int, p: usize|
                    0 <= g < f && covering_pieces(info, g).len() <= per_file
                        && #[trigger] covering_pieces(info, g).contains(p) ==> r@.to_set().contains(p),
                forall|j: int| 0 <= j < k ==> #[trigger] r@.to_set().contains(cands@[j]),
                forall|g: int| 0 <= g < f ==> #[trigger] has_sample(info, per_file as int, g, r@),
                per_file == 0 ==> r@.len() == 0,
            decreases take - k,
        {
            let x = cands[k];
            proof {
                assert(cands@.contains(x));
                assert(cands@.to_multiset().count(x) > 0);
                assert(unshuffled.to_multiset().count(x) > 0);
                assert(unshuffled.contains(x));
            }
            let ghost before = r@;
            insert_unique(&mut r, x);
            proof {
                assert forall|i: int| 0 <= i < r@.len() implies #[trigger] r@[i] < info.pieces@.len()
                    && covers_some_file(info, r@[i] as int) by {
                    assert(r@.to_set().contains(r@[i]));
                    if r@[i] != x {
                        assert(before.to_set().contains(r@[i]));
                        let j = choose|j: int| 0 <= j < before.len() && before[j] == r@[i];
                        assert(before[j] < info.pieces@.len());
                    } else {
                        let j = choose|j: int| 0 <= j < unshuffled.len() && unshuffled[j] == x;
                        assert(piece_covers(info.pieces@[x as int], f as int));
                        assert(covers_some_file(info, x as int));
                    }
                }
                assert forall|y: usize| before.contains(y) implies r@.contains(y) by {
                    assert(before.to_set().contains(y));
                    assert(r@.to_set().contains(y));
                }
                assert forall|g: int| 0 <= g < f implies #[trigger] has_sample(info, per_file as int, g, r@) by {
                    assert(has_sample(info, per_file as int, g, before));
                    let w = choose|w: Seq<usize>| #[trigger] is_sample_of(info, per_file as int, g, before, w);
                    assert(is_sample_of(info, per_file as int, g, r@, w));
                }
            }
            k = k + 1;
        }
        proof {
            unshuffled.lemma_multiset_has_no_duplicates();
            assert forall|y: usize| cands@.to_multiset().contains(y) implies cands@.to_multiset().count(y) == 1 by {
                assert(unshuffled.to_multiset().contains(y));
            }
            cands@.lemma_multiset_has_no_duplicates_conv();
            assert(unshuffled.len() == unshuffled.to_multiset().len());
            assert(cands@.len() == cands@.to_multiset().len());
            let w = cands@.take(take as int);
            assert forall|i: int| 0 <= i < w.len() implies unshuffled.contains(#[trigger] w[i]) && r@.contains(w[i]) by {
                assert(r@.to_set().contains(cands@[i]));
                assert(cands@.contains(cands@[i]));
                assert(cands@.to_multiset().count(cands@[i]) > 0);
            }
            assert(is_sample_of(info, per_file as int, f as int, r@, w));
            assert forall|p: usize|
                covering_pieces(info, f as int).len() <= per_file && covering_pieces(info, f as int).contains(p)
                    implies r@.to_set().contains(p) by {
                assert(unshuffled.contains(p));
                assert(unshuffled.to_multiset().count(p) > 0);
                assert(cands@.to_multiset().count(p) > 0);
                assert(unshuffled.len() == unshuffled.to_multiset().len());
                assert(cands@.len() == cands@.to_multiset().len());
                assert(k == take);
                assert(cands@.contains(p));
                let j = choose|j: int| 0 <= j < cands@.len() && cands@[j] == p;
                assert(r@.to_set().contains(cands@[j]));
            }
        }
        f = f + 1;
    }
    r
}

} // verus!
