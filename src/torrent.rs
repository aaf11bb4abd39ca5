//! The typed description of a torrent and the reconstruction of its piece geometry.

use vstd::prelude::*;

verus! {

/// Number of bytes in one piece digest.
pub const DIGEST_LENGTH: usize = 20;

/// A piece hash: twenty bytes, compared byte by byte.
#[derive(Clone, Copy)]
pub struct Digest(pub [u8; 20]);

impl Digest {
    pub fn bytes(&self) -> (r: [u8; 20])
        ensures
            r@ == self.0@,
    {
        self.0
    }
}

/// The digest made of the twenty bytes of `b` that start at `start`.
pub open spec fn digest_at(b: Seq<u8>, start: int) -> Seq<u8> {
    b.subrange(start, start + DIGEST_LENGTH as int)
}

/// Cuts `b` into consecutive digests.
fn split_digests(b: &Vec<u8>) -> (r: Vec<Digest>)
    requires
        b@.len() % 20 == 0,
    ensures
        r@.len() * 20 == b@.len(),
        forall|p: int| 0 <= p < r@.len() ==> #[trigger] r@[p].0@ == digest_at(b@, p * 20),
{
    let mut r: Vec<Digest> = Vec::new();
    let mut start: usize = 0;
    while start < b.len()
        invariant
            b@.len() % 20 == 0,
            start % 20 == 0,
            start <= b@.len(),
            r@.len() * 20 == start,
            forall|p: int| 0 <= p < r@.len() ==> #[trigger] r@[p].0@ == digest_at(b@, p * 20),
        decreases b@.len() - start,
    {
        assert(start + 20 <= b@.len()) by {
            assert((b@.len() - start) % 20 == 0);
        }
        let mut a: [u8; 20] = [0u8; 20];
        let mut j: usize = 0;
        while j < 20
            invariant
                start + 20 <= b@.len(),
                b@.len() <= usize::MAX,
                j <= 20,
                a@.len() == 20,
                forall|k: int| 0 <= k < j ==> a@[k] == b@[start + k],
            decreases 20 - j,
        {
            a[j] = b[start + j];
            j = j + 1;
        }
        proof {
            assert(a@ =~= digest_at(b@, start as int));
        }
        r.push(Digest(a));
        start = start + 20;
    }
    r
}


/// A file that the torrent declares: its length and its relative path, one
/// component per element.
pub struct File {
    pub length: u64,
    pub path: Vec<String>,
}

/// The part of one declared file that one piece covers.
pub struct FileSlice {
    pub path: Vec<String>,
    /// Position of the file in the declared file list.
    pub file_index: usize,
    pub offset: u64,
    pub length: u64,
}

/// One piece: its declared digest and the file slices it covers, in order.
pub struct Piece {
    pub hash: Digest,
    pub file_slices: Vec<FileSlice>,
}

/// Why metainfo was refused.
#[derive(Clone, Copy, Debug, PartialEq, Eq)]
pub enum DecodeError {
    /// The `pieces` string is empty.
    EmptyPieces,
    /// The `pieces` string is not a whole number of digests.
    PiecesNotMultipleOfDigest,
    /// Neither `length` nor `files` is present.
    MissingLength,
    /// `files` is an empty list.
    EmptyFiles,
    /// `piece length` is zero.
    ZeroPieceLength,
    /// `name` is empty.
    EmptyName,
    /// The file lengths add up to more than a `u64` holds.
    TotalTooLarge,
    /// The number of digests does not fit the total length of the files.
    MismatchedTotals,
}

pub open spec fn min_int(a: int, b: int) -> int {
    if a < b { a } else { b }
}

/// Position of the first byte of file `i` in the concatenated payload.
pub open spec fn file_start(files: Seq<File>, i: int) -> int
    decreases i,
{
    if i <= 0 || files.len() < i {
        0
    } else {
        file_start(files, i - 1) + files[i - 1].length
    }
}

/// Total number of bytes that the files declare.
pub open spec fn total_length(files: Seq<File>) -> int {
    file_start(files, files.len() as int)
}

/// Sum of the lengths of a sequence of slices.
pub open spec fn slices_length(s: Seq<FileSlice>) -> int
    decreases s.len(),
{
    if s.len() == 0 {
        0
    } else {
        slices_length(s.drop_last()) + s.last().length
    }
}

/// The payload position one past the last byte of piece `p`.
pub open spec fn piece_end(piece_length: int, total: int, p: int) -> int {
    min_int((p + 1) * piece_length, total)
}

/// `s` is the slice of the payload that starts at `pos` and runs to the end of
/// its file or to `end`, whichever comes first.
pub open spec fn slice_at(files: Seq<File>, s: FileSlice, pos: int, end: int) -> bool {
    &&& s.file_index < files.len()
    &&& 0 < s.length
    &&& s.offset < files[s.file_index as int].length
    &&& file_start(files, s.file_index as int) + s.offset == pos
    &&& s.length == min_int(files[s.file_index as int].length - s.offset, end - pos)
    &&& s.path.deep_view() == files[s.file_index as int].path.deep_view()
}

/// The slices of piece `p`: they cover the payload bytes from `p * piece_length`
/// to `piece_end`, in order, each as long as its file and the piece allow.
pub open spec fn piece_slices_wf(files: Seq<File>, piece_length: int, p: int, s: Seq<FileSlice>) -> bool {
    let start = p * piece_length;
    let end = piece_end(piece_length, total_length(files), p);
    &&& s.len() > 0
    &&& start + slices_length(s) == end
    &&& forall|k: int|
        0 <= k < s.len() ==> #[trigger] slice_at(files, s[k], start + slices_length(s.take(k)), end)
}

/// `n` digests fit a payload of `total` bytes: the last piece holds at least one byte.
pub open spec fn piece_count_fits(n: int, piece_length: int, total: int) -> bool {
    (n - 1) * piece_length < total <= n * piece_length
}

/// Every piece holds the slices of its span of the payload.
pub open spec fn pieces_wf(files: Seq<File>, piece_length: int, pieces: Seq<Piece>) -> bool {
    forall|p: int|
        0 <= p < pieces.len() ==> #[trigger] piece_slices_wf(files, piece_length, p, pieces[p].file_slices@)
}

proof fn lemma_take_push(s: Seq<FileSlice>, x: FileSlice, k: int)
    requires
        0 <= k <= s.len(),
    ensures
        s.push(x).take(k) == s.take(k),
{
    assert(s.push(x).take(k) =~= s.take(k));
}

proof fn lemma_push_length(s: Seq<FileSlice>, x: FileSlice)
    ensures
        slices_length(s.push(x)) == slices_length(s) + x.length,
{
    assert(s.push(x).drop_last() =~= s);
}

/// Adds up the file lengths; `None` when the sum leaves `u64`.
fn sum_lengths(files: &Vec<File>) -> (r: Option<u64>)
    ensures
        r is Some <==> total_length(files@) <= u64::MAX,
        r matches Some(t) ==> t == total_length(files@),
{
    let mut t: u64 = 0;
    let mut i: usize = 0;
    while i < files.len()
        invariant
            i <= files@.len(),
            t == file_start(files@, i as int),
        decreases files@.len() - i,
    {
        if t > u64::MAX - files[i].length {
            proof {
                lemma_file_start_mono(files@, i as int + 1, files@.len() as int);
            }
            return None;
        }
        t = t + files[i].length;
        i = i + 1;
    }
    Some(t)
}

proof fn lemma_file_start_mono(files: Seq<File>, i: int, j: int)
    requires
        0 <= i <= j <= files.len(),
    ensures
        file_start(files, i) <= file_start(files, j),
    decreases j - i,
{
    if i < j {
        lemma_file_start_mono(files, i, j - 1);
    }
}

/// Derives the slices of every piece from the file list: digest `p` covers the
/// payload bytes from `p * piece_length` on, up to `piece_length` of them.
pub fn build_pieces(files: &Vec<File>, piece_length: u64, hashes: &Vec<Digest>) -> (r: Result<Vec<Piece>, DecodeError>)
    requires
        files@.len() > 0,
        piece_length > 0,
        hashes@.len() > 0,
        total_length(files@) <= u64::MAX,
    ensures
        r is Ok <==> piece_count_fits(hashes@.len() as int, piece_length as int, total_length(files@)),
        r matches Ok(pieces) ==> pieces@.len() == hashes@.len() && pieces_wf(files@, piece_length as int, pieces@)
            && forall|p: int| 0 <= p < pieces@.len() ==> (#[trigger] pieces@[p]).hash == hashes@[p],
        r matches Err(e) ==> e == DecodeError::MismatchedTotals,
{
    let ghost fs = files@;
    let ghost pl = piece_length as int;
    let ghost total = total_length(fs);
    let n = hashes.len();
    let mut remaining: u64 = match sum_lengths(files) {
        Some(t) => t,
        None => return Err(DecodeError::MismatchedTotals),
    };
    let mut pieces: Vec<Piece> = Vec::new();
    let mut fi: usize = 0;
    let mut off: u64 = 0;
    let mut p: usize = 0;
    proof {
        lemma_file_start_mono(fs, 1, fs.len() as int);
    }
    while p < n
        invariant
            fs == files@,
            n == hashes@.len(),
            pl == piece_length as int,
            pl > 0,
            total == total_length(fs),
            p <= n,
            pieces@.len() == p,
            fi < fs.len(),
            off <= fs[fi as int].length,
            file_start(fs, fi as int) + off + remaining == total,
            total - remaining == min_int(p * pl, total),
            p > 0 ==> (p - 1) * pl < total,
            forall|q: int| 0 <= q < p ==> (#[trigger] pieces@[q]).hash == hashes@[q],
            pieces_wf(fs, pl, pieces@),
        decreases n - p,
    {
        if remaining == 0 {
            proof {
                assert((n - 1) * pl >= p * pl) by (nonlinear_arith)
                    requires p <= n - 1, pl > 0;
            }
            return Err(DecodeError::MismatchedTotals);
        }
        let ghost start = p * pl;
        let ghost end = piece_end(pl, total, p as int);
        proof {
            assert((p + 1) * pl == p * pl + pl) by (nonlinear_arith);
        }
        let mut left: u64 = if remaining < piece_length { remaining } else { piece_length };
        let mut slices: Vec<FileSlice> = Vec::new();
        while left > 0
            invariant
                fs == files@,
                total == total_length(fs),
                fi < fs.len(),
                off <= fs[fi as int].length,
                file_start(fs, fi as int) + off + remaining == total,
                left <= remaining,
                file_start(fs, fi as int) + off + left == end,
                start + slices_length(slices@) == file_start(fs, fi as int) + off,
                start == p * pl,
                end == piece_end(pl, total, p as int),
                left == 0 ==> slices@.len() > 0,
                left > 0 && slices@.len() == 0 ==> file_start(fs, fi as int) + off == start,
                forall|k: int|
                    0 <= k < slices@.len() ==> #[trigger] slice_at(fs, slices@[k], start + slices_length(slices@.take(k)), end),
            decreases left,
        {
            while off == files[fi].length
                invariant
                    fs == files@,
                    total == total_length(fs),
                    fi < fs.len(),
                    off <= fs[fi as int].length,
                    file_start(fs, fi as int) + off < total,
                    file_start(fs, fi as int) + off + remaining == total,
                    file_start(fs, fi as int) + off + left == end,
                    start + slices_length(slices@) == file_start(fs, fi as int) + off,
                    left > 0 && slices@.len() == 0 ==> file_start(fs, fi as int) + off == start,
                decreases fs.len() - fi,
            {
                assert(file_start(fs, fi as int + 1) == file_start(fs, fi as int) + fs[fi as int].length);
                assert(total == file_start(fs, fs.len() as int));
                assert(fi + 1 < files.len());
                fi = fi + 1;
                off = 0;
            }
            let avail = files[fi].length - off;
            let take = if avail < left { avail } else { left };
            let slice = FileSlice { path: files[fi].path.clone(), file_index: fi, offset: off, length: take };
            proof {
                lemma_push_length(slices@, slice);
                assert forall|k: int| 0 <= k < slices@.len() + 1 implies #[trigger] slice_at(
                    fs,
                    slices@.push(slice)[k],
                    start + slices_length(slices@.push(slice).take(k)),
                    end,
                ) by {
                    lemma_take_push(slices@, slice, k);
                    if k == slices@.len() {
                        assert(slices@.take(k) =~= slices@);
                    }
                }
            }
            slices.push(slice);
            off = off + take;
            left = left - take;
            remaining = remaining - take;
        }
        pieces.push(Piece { hash: hashes[p], file_slices: slices });
        p = p + 1;
    }
    if remaining > 0 {
        return Err(DecodeError::MismatchedTotals);
    }
    Ok(pieces)
}


/// The decoded `info` dictionary.
pub struct Info {
    pub is_single_file: bool,
    pub files: Vec<File>,
    pub name: String,
    pub piece_length: u64,
    pub pieces: Vec<Piece>,
}

/// A decoded metainfo file.
pub struct Torrent {
    pub announce: String,
    pub info: Info,
}

impl Info {
    /// The file list is non-empty, the pieces fit the payload and cover it, and
    /// a single-file torrent's one file is named after the torrent.
    pub open spec fn wf(&self) -> bool {
        &&& self.files@.len() > 0
        &&& self.pieces@.len() > 0
        &&& self.piece_length > 0
        &&& piece_count_fits(self.pieces@.len() as int, self.piece_length as int, total_length(self.files@))
        &&& pieces_wf(self.files@, self.piece_length as int, self.pieces@)
        &&& self.is_single_file ==> self.files@.len() == 1 && self.files@[0].path.deep_view() == seq![self.name@]
    }

    /// Checks the fields of an `info` dictionary and derives its piece geometry.
    /// `pieces` is the raw concatenation of digests; `files` is present for a
    /// multi-file torrent and `length` for a single-file one.
    pub fn new(
        name: String,
        piece_length: u64,
        pieces: &Vec<u8>,
        length: Option<u64>,
        files: Option<Vec<File>>,
    ) -> (r: Result<Info, DecodeError>)
        ensures
            r matches Err(e) ==> e == decode_error(name@, piece_length, pieces@.len() as int, length, files),
            r is Err <==> has_decode_error(name@, piece_length, pieces@.len() as int, length, files),
            r matches Ok(info) ==> {
                &&& info.wf()
                &&& info.name@ == name@
                &&& info.piece_length == piece_length
                &&& info.is_single_file == (files is None)
                &&& files matches Some(fl) ==> info.files@ == fl@
                &&& files is None ==> info.files@[0].length == length->Some_0
                &&& info.pieces@.len() * 20 == pieces@.len()
                &&& forall|p: int| 0 <= p < info.pieces@.len() ==> (#[trigger] info.pieces@[p]).hash.0@ == digest_at(pieces@, p * 20)
            },
    {
        if pieces.len() == 0 {
            return Err(DecodeError::EmptyPieces);
        }
        if pieces.len() % 20 != 0 {
            return Err(DecodeError::PiecesNotMultipleOfDigest);
        }
        let is_single_file = files.is_none();
        let file_list: Vec<File> = match files {
            Some(fl) => fl,
            None => match length {
                Some(l) => {
                    let v = vec![File { length: l, path: vec![name.clone()] }];
                    assert(total_length(v@) == file_start(v@, 0) + l);
                    v
                },
                None => return Err(DecodeError::MissingLength),
            },
        };
        if file_list.len() == 0 {
            return Err(DecodeError::EmptyFiles);
        }
        if piece_length == 0 {
            return Err(DecodeError::ZeroPieceLength);
        }
        if name.as_str().unicode_len() == 0 {
            return Err(DecodeError::EmptyName);
        }
        if sum_lengths(&file_list).is_none() {
            return Err(DecodeError::TotalTooLarge);
        }
        let hashes = split_digests(pieces);
        match build_pieces(&file_list, piece_length, &hashes) {
            Ok(ps) => {
                proof {
                    if is_single_file {
                        assert(file_list@[0].path.deep_view() =~= seq![name@]);
                    }
                }
                Ok(Info { is_single_file, files: file_list, name, piece_length, pieces: ps })
            },
            Err(e) => Err(e),
        }
    }
}

/// Total length of the files that an `info` dictionary declares.
pub open spec fn declared_total(length: Option<u64>, files: Option<Vec<File>>) -> int {
    match files {
        Some(fl) => total_length(fl@),
        None => length->Some_0 as int,
    }
}

/// The first check, in order, that an `info` dictionary fails.
pub open spec fn decode_error(
    name: Seq<char>,
    piece_length: u64,
    pieces_len: int,
    length: Option<u64>,
    files: Option<Vec<File>>,
) -> DecodeError {
    if pieces_len == 0 {
        DecodeError::EmptyPieces
    } else if pieces_len % 20 != 0 {
        DecodeError::PiecesNotMultipleOfDigest
    } else if files is None && length is None {
        DecodeError::MissingLength
    } else if files matches Some(fl) && fl@.len() == 0 {
        DecodeError::EmptyFiles
    } else if piece_length == 0 {
        DecodeError::ZeroPieceLength
    } else if name.len() == 0 {
        DecodeError::EmptyName
    } else if declared_total(length, files) > u64::MAX {
        DecodeError::TotalTooLarge
    } else {
        DecodeError::MismatchedTotals
    }
}

/// Whether an `info` dictionary fails any check.
pub open spec fn has_decode_error(
    name: Seq<char>,
    piece_length: u64,
    pieces_len: int,
    length: Option<u64>,
    files: Option<Vec<File>>,
) -> bool {
    pieces_len == 0 || pieces_len % 20 != 0 || (files is None && length is None)
        || (files matches Some(fl) && fl@.len() == 0) || piece_length == 0 || name.len() == 0
        || declared_total(length, files) > u64::MAX
        || !piece_count_fits(pieces_len / 20, piece_length as int, declared_total(length, files))
}


/// Sum of the slice lengths of a sequence of pieces.
pub open spec fn pieces_length(ps: Seq<Piece>) -> int
    decreases ps.len(),
{
    if ps.len() == 0 {
        0
    } else {
        pieces_length(ps.drop_last()) + slices_length(ps.last().file_slices@)
    }
}

proof fn lemma_mul_mono(a: int, b: int, c: int)
    requires
        0 <= a <= b,
        0 <= c,
    ensures
        a * c <= b * c,
{
    assert(a * c <= b * c) by (nonlinear_arith)
        requires 0 <= a <= b, 0 <= c;
}

proof fn lemma_prefix_cover(ps: Seq<Piece>, pl: int, total: int, q: int)
    requires
        0 <= q <= ps.len(),
        pl > 0,
        0 <= total,
        (ps.len() - 1) * pl < total <= ps.len() * pl,
        forall|p: int| 0 <= p < ps.len() ==> slices_length(#[trigger] ps[p].file_slices@) == min_int((p + 1) * pl, total) - p * pl,
    ensures
        pieces_length(ps.take(q)) == min_int(q * pl, total),
    decreases q,
{
    if q == 0 {
        assert(ps.take(0) =~= Seq::<Piece>::empty());
        assert(0 * pl == 0);
    } else {
        lemma_prefix_cover(ps, pl, total, q - 1);
        assert(ps.take(q).drop_last() =~= ps.take(q - 1));
        assert(ps.take(q).last() == ps[q - 1]);
        lemma_mul_mono(q - 1, ps.len() - 1, pl);
        assert(slices_length(ps[q - 1].file_slices@) == min_int(q * pl, total) - (q - 1) * pl);
        assert(min_int((q - 1) * pl, total) == (q - 1) * pl);
        assert(pieces_length(ps.take(q)) == pieces_length(ps.take(q - 1)) + slices_length(
            ps[q - 1].file_slices@,
        ));
    }
}

/// For a well-formed `info`, the slices of all pieces add up to the total
/// length of the files; every piece but the last holds `piece_length` bytes,
/// and the last holds at least one byte and at most `piece_length`.
pub proof fn lemma_piece_coverage(info: &Info)
    requires
        info.wf(),
    ensures
        pieces_length(info.pieces@) == total_length(info.files@),
        forall|p: int|
            0 <= p < info.pieces@.len() - 1 ==> slices_length(#[trigger] info.pieces@[p].file_slices@)
                == info.piece_length,
        0 < slices_length(info.pieces@.last().file_slices@) <= info.piece_length,
{
    let ps = info.pieces@;
    let pl = info.piece_length as int;
    let total = total_length(info.files@);
    let n = ps.len() as int;
    assert forall|p: int| 0 <= p < n implies slices_length(#[trigger] ps[p].file_slices@) == min_int(
        (p + 1) * pl,
        total,
    ) - p * pl by {
        assert(piece_slices_wf(info.files@, pl, p, ps[p].file_slices@));
    }
    lemma_file_start_mono(info.files@, 0, info.files@.len() as int);
    lemma_prefix_cover(ps, pl, total, n);
    assert(ps.take(n) =~= ps);
    assert forall|p: int| 0 <= p < n - 1 implies slices_length(#[trigger] ps[p].file_slices@) == pl by {
        lemma_mul_mono(p + 1, n - 1, pl);
        assert((p + 1) * pl == p * pl + pl) by (nonlinear_arith);
    }
    assert(n * pl == (n - 1) * pl + pl) by (nonlinear_arith);
    assert(slices_length(ps[n - 1].file_slices@) == min_int(n * pl, total) - (n - 1) * pl);
}

proof fn lemma_position_unique(files: Seq<File>, i: int, o: int, j: int, o2: int)
    requires
        0 <= i < files.len(),
        0 <= j < files.len(),
        0 <= o < files[i].length,
        0 <= o2 < files[j].length,
        file_start(files, i) + o == file_start(files, j) + o2,
    ensures
        i == j,
        o == o2,
{
    if i < j {
        lemma_file_start_mono(files, i + 1, j);
    } else if j < i {
        lemma_file_start_mono(files, j + 1, i);
    }
}

proof fn lemma_position_after(files: Seq<File>, i: int, j: int, o2: int)
    requires
        0 <= i < files.len(),
        0 <= j < files.len(),
        0 <= o2 < files[j].length,
        file_start(files, j) + o2 == file_start(files, i + 1),
    ensures
        i < j,
        o2 == 0,
{
    if j <= i {
        lemma_file_start_mono(files, j + 1, i + 1);
    } else {
        lemma_file_start_mono(files, i + 1, j);
    }
}

/// Within a piece, each slice but the last runs to the end of its file, and the
/// next slice starts at offset zero of a later file.
pub proof fn lemma_slices_in_file_order(info: &Info, p: int, k: int)
    requires
        info.wf(),
        0 <= p < info.pieces@.len(),
        0 <= k < info.pieces@[p].file_slices@.len() - 1,
    ensures
        ({
            let s = info.pieces@[p].file_slices@;
            &&& s[k].file_index < s[k + 1].file_index
            &&& s[k + 1].offset == 0
            &&& s[k].offset + s[k].length == info.files@[s[k].file_index as int].length
        }),
{
    let fs = info.files@;
    let pl = info.piece_length as int;
    let s = info.pieces@[p].file_slices@;
    let start = p * pl;
    let end = piece_end(pl, total_length(fs), p);
    assert(piece_slices_wf(fs, pl, p, s));
    assert(slice_at(fs, s[k], start + slices_length(s.take(k)), end));
    assert(slice_at(fs, s[k + 1], start + slices_length(s.take(k + 1)), end));
    assert(s.take(k + 1).drop_last() =~= s.take(k));
    let a = s[k];
    lemma_position_after(fs, a.file_index as int, s[k + 1].file_index as int, s[k + 1].offset as int);
}

/// The first slice of a piece continues where the previous piece stopped: in
/// the same file at the next offset, or at offset zero of a later file once the
/// previous file is exhausted.
pub proof fn lemma_slices_contiguous_across_pieces(info: &Info, p: int)
    requires
        info.wf(),
        0 <= p < info.pieces@.len() - 1,
    ensures
        ({
            let a = info.pieces@[p].file_slices@.last();
            let b = info.pieces@[p + 1].file_slices@[0];
            ||| b.file_index == a.file_index && b.offset == a.offset + a.length
            ||| a.file_index < b.file_index && b.offset == 0 && a.offset + a.length
                == info.files@[a.file_index as int].length
        }),
{
    let fs = info.files@;
    let pl = info.piece_length as int;
    let total = total_length(fs);
    let n = info.pieces@.len() as int;
    let s = info.pieces@[p].file_slices@;
    let t = info.pieces@[p + 1].file_slices@;
    let m = s.len() - 1;
    assert(piece_slices_wf(fs, pl, p, s));
    assert(piece_slices_wf(fs, pl, p + 1, t));
    assert(s.take(m + 1) =~= s);
    assert(s.take(m + 1).drop_last() =~= s.take(m));
    assert(slice_at(fs, s[m], p * pl + slices_length(s.take(m)), piece_end(pl, total, p)));
    assert(t.take(0) =~= Seq::<FileSlice>::empty());
    assert(slice_at(fs, t[0], (p + 1) * pl + slices_length(t.take(0)), piece_end(pl, total, p + 1)));
    lemma_mul_mono(p + 1, n - 1, pl);
    let a = s[m];
    let b = t[0];
    if a.offset + a.length == fs[a.file_index as int].length {
        lemma_position_after(fs, a.file_index as int, b.file_index as int, b.offset as int);
    } else {
        lemma_position_unique(fs, a.file_index as int, a.offset + a.length, b.file_index as int, b.offset as int);
    }
}

} // verus!
