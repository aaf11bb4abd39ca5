//! Hashing the bytes of a piece and comparing them with its declared digest.

use vstd::prelude::*;
use crate::sample::{covers, piece_covers};
use crate::torrent::{Digest, Info, Piece};

verus! {

/// The SHA-1 digest of `data`.
pub uninterp spec fn sha1_of(data: Seq<u8>) -> Seq<u8>;

/// Relies on `sha1_smol::Sha1::from` and `Sha1::digest`: the SHA-1 digest of `data`.
#[verifier::external_body]
fn sha1_digest(data: &Vec<u8>) -> (r: [u8; 20])
    ensures
        r@ == sha1_of(data@),
{
    sha1_smol::Sha1::from(data.as_slice()).digest().bytes()
}

/// The byte strings of `d`, one after the other.
pub open spec fn concat_all(d: Seq<Vec<u8>>) -> Seq<u8>
    decreases d.len(),
{
    if d.len() == 0 {
        Seq::empty()
    } else {
        concat_all(d.drop_last()) + d.last()@
    }
}

/// Why a piece could not be hashed.
#[derive(Clone, Copy, Debug, PartialEq, Eq)]
pub enum CheckError {
    /// Fewer (or more) bytes were read for the slice at `slice_index` than it holds.
    ShortRead { slice_index: usize },
}

/// Whether a computed digest is the declared one.
pub fn digest_matches(expected: &Digest, computed: &[u8; 20]) -> (r: bool)
    ensures
        r == (expected.0@ == computed@),
{
    let mut i: usize = 0;
    while i < 20
        invariant
            i <= 20,
            expected.0@.len() == 20,
            computed@.len() == 20,
            forall|k: int| 0 <= k < i ==> expected.0@[k] == computed@[k],
        decreases 20 - i,
    {
        if expected.0[i] != computed[i] {
            return false;
        }
        i = i + 1;
    }
    assert(expected.0@ =~= computed@);
    true
}

/// Hashes the bytes read for each slice of `piece`, in order, and compares the
/// digest with the declared one. A slice whose bytes are not exactly as many as
/// it holds is an error: the first such slice is named.
pub fn check_piece(piece: &Piece, slice_data: &Vec<Vec<u8>>) -> (r: Result<bool, CheckError>)
    requires
        slice_data@.len() == piece.file_slices@.len(),
    ensures
        r matches Err(CheckError::ShortRead { slice_index }) ==> slice_index < slice_data@.len()
            && slice_data@[slice_index as int]@.len() != piece.file_slices@[slice_index as int].length
            && forall|k: int| 0 <= k < slice_index ==> (#[trigger] slice_data@[k])@.len() == piece.file_slices@[k].length,
        r is Ok <==> forall|k: int| 0 <= k < slice_data@.len() ==> (#[trigger] slice_data@[k])@.len() == piece.file_slices@[k].length,
        r matches Ok(b) ==> b == (sha1_of(concat_all(slice_data@)) == piece.hash.0@),
{
    let mut buffer: Vec<u8> = Vec::new();
    let mut i: usize = 0;
    while i < slice_data.len()
        invariant
            slice_data@.len() == piece.file_slices@.len(),
            i <= slice_data@.len(),
            buffer@ == concat_all(slice_data@.take(i as int)),
            forall|k: int| 0 <= k < i ==> (#[trigger] slice_data@[k])@.len() == piece.file_slices@[k].length,
        decreases slice_data@.len() - i,
    {
        if slice_data[i].len() as u64 != piece.file_slices[i].length {
            return Err(CheckError::ShortRead { slice_index: i });
        }
        let mut j: usize = 0;
        let ghost start = buffer@;
        while j < slice_data[i].len()
            invariant
                i < slice_data@.len(),
                j <= slice_data@[i as int]@.len(),
                buffer@ == start + slice_data@[i as int]@.take(j as int),
            decreases slice_data@[i as int]@.len() - j,
        {
            buffer.push(slice_data[i][j]);
            assert(buffer@ =~= start + slice_data@[i as int]@.take(j as int + 1));
            j = j + 1;
        }
        proof {
            assert(slice_data@[i as int]@.take(j as int) =~= slice_data@[i as int]@);
            assert(slice_data@.take(i as int + 1).drop_last() =~= slice_data@.take(i as int));
        }
        i = i + 1;
    }
    assert(slice_data@.take(i as int) =~= slice_data@);
    let computed = sha1_digest(&buffer);
    Ok(digest_matches(&piece.hash, &computed))
}

/// Some tested piece that failed covers file `f`: `tested[t]` is the index of
/// the piece whose result is `passed[t]`.
pub open spec fn file_failed(info: &Info, tested: Seq<usize>, passed: Seq<bool>, f: int) -> bool {
    exists|t: int|
        0 <= t < tested.len() && !passed[t] && tested[t] < info.pieces@.len() && #[trigger] piece_covers(
            info.pieces@[tested[t] as int],
            f,
        )
}

/// The declared files, by index in increasing order, that a failed piece covers.
pub fn failed_files(info: &Info, tested: &Vec<usize>, passed: &Vec<bool>) -> (r: Vec<usize>)
    requires
        tested@.len() == passed@.len(),
        forall|t: int| 0 <= t < tested@.len() ==> #[trigger] tested@[t] < info.pieces@.len(),
    ensures
        forall|a: int, b: int| 0 <= a < b < r@.len() ==> r@[a] < r@[b],
        forall|a: int| 0 <= a < r@.len() ==> #[trigger] r@[a] < info.files@.len(),
        forall|f: int| 0 <= f < info.files@.len() ==> (r@.contains(f as usize) <==> file_failed(info, tested@, passed@, f)),
{
    let mut r: Vec<usize> = Vec::new();
    let mut f: usize = 0;
    while f < info.files.len()
        invariant
            tested@.len() == passed@.len(),
            forall|t: int| 0 <= t < tested@.len() ==> #[trigger] tested@[t] < info.pieces@.len(),
            f <= info.files@.len(),
            forall|a: int, b: int| 0 <= a < b < r@.len() ==> r@[a] < r@[b],
            forall|a: int| 0 <= a < r@.len() ==> #[trigger] r@[a] < f,
            forall|g: int| 0 <= g < f ==> (r@.contains(g as usize) <==> file_failed(info, tested@, passed@, g)),
        decreases info.files@.len() - f,
    {
        let mut t: usize = 0;
        let mut hit = false;
        while t < tested.len() && !hit
            invariant
                tested@.len() == passed@.len(),
                forall|t: int| 0 <= t < tested@.len() ==> #[trigger] tested@[t] < info.pieces@.len(),
                t <= tested@.len(),
                hit ==> file_failed(info, tested@, passed@, f as int),
                !hit ==> forall|u: int| 0 <= u < t ==> !(!passed@[u] && #[trigger] piece_covers(info.pieces@[tested@[u] as int], f as int)),
            decreases tested@.len() - t,
        {
            if !passed[t] && covers(&info.pieces[tested[t]], f) {
                hit = true;
            }
            t = t + 1;
        }
        let ghost before = r@;
        if hit {
            r.push(f);
        }
        proof {
            assert forall|g: int| 0 <= g < f + 1 implies (r@.contains(g as usize) <==> file_failed(info, tested@, passed@, g)) by {
                if g < f {
                    if r@.contains(g as usize) {
                        let j = choose|j: int| 0 <= j < r@.len() && r@[j] == g as usize;
                        if hit && j == before.len() {
                        } else {
                            assert(before[j] == g);
                        }
                    }
                    if before.contains(g as usize) {
                        let j = choose|j: int| 0 <= j < before.len() && before[j] == g as usize;
                        assert(r@[j] == g);
                    }
                } else {
                    if hit {
                        assert(r@[before.len() as int] == f);
                    } else {
                        if r@.contains(g as usize) {
                            let j = choose|j: int| 0 <= j < r@.len() && r@[j] == g as usize;
                            assert(before[j] < f);
                        }
                    }
                }
            }
        }
        f = f + 1;
    }
    r
}

} // verus!
