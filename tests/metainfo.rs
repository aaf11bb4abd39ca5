use cross_seed::torrent::{DecodeError, Digest, File, Info};

fn file(length: u64, path: &[&str]) -> File {
    File { length, path: path.iter().map(|c| c.to_string()).collect() }
}

fn digests(n: usize) -> Vec<u8> {
    (0..n * 20).map(|i| (i % 251) as u8).collect()
}

fn slices(info: &Info, p: usize) -> Vec<(usize, u64, u64)> {
    info.pieces[p].file_slices.iter().map(|s| (s.file_index, s.offset, s.length)).collect()
}

#[test]
fn multi_file_geometry() {
    let info = Info::new(
        "pack".to_string(),
        4,
        &digests(3),
        None,
        Some(vec![file(5, &["a", "x"]), file(7, &["a", "y"])]),
    )
    .unwrap();
    assert!(!info.is_single_file);
    assert_eq!(info.pieces.len(), 3);
    assert_eq!(slices(&info, 0), vec![(0, 0, 4)]);
    assert_eq!(slices(&info, 1), vec![(0, 4, 1), (1, 0, 3)]);
    assert_eq!(slices(&info, 2), vec![(1, 3, 4)]);
    assert_eq!(info.pieces[1].file_slices[1].path, vec!["a".to_string(), "y".to_string()]);
    let expected: Vec<u8> = (20..40).map(|i| i as u8).collect();
    assert_eq!(info.pieces[1].hash.bytes().to_vec(), expected);
}

#[test]
fn slice_lengths_cover_all_files() {
    let info = Info::new(
        "pack".to_string(),
        3,
        &digests(4),
        None,
        Some(vec![file(2, &["a"]), file(0, &["empty"]), file(4, &["b"]), file(4, &["c"])]),
    )
    .unwrap();
    let total: u64 = info.pieces.iter().flat_map(|p| p.file_slices.iter()).map(|s| s.length).sum();
    assert_eq!(total, 10);
    for p in &info.pieces[..3] {
        assert_eq!(p.file_slices.iter().map(|s| s.length).sum::<u64>(), 3);
    }
    assert_eq!(info.pieces[3].file_slices.iter().map(|s| s.length).sum::<u64>(), 1);
    assert_eq!(slices(&info, 0), vec![(0, 0, 2), (2, 0, 1)]);
    assert_eq!(slices(&info, 1), vec![(2, 1, 3)]);
    assert_eq!(slices(&info, 2), vec![(3, 0, 3)]);
    assert_eq!(slices(&info, 3), vec![(3, 3, 1)]);
}

#[test]
fn single_file_synthesises_file_list() {
    let info = Info::new("movie.mkv".to_string(), 16, &digests(1), Some(10), None).unwrap();
    assert!(info.is_single_file);
    assert_eq!(info.files.len(), 1);
    assert_eq!(info.files[0].length, 10);
    assert_eq!(info.files[0].path, vec!["movie.mkv".to_string()]);
    assert_eq!(slices(&info, 0), vec![(0, 0, 10)]);
}

#[test]
fn exact_multiple_has_full_last_piece() {
    let info = Info::new("f".to_string(), 5, &digests(2), Some(10), None).unwrap();
    assert_eq!(slices(&info, 1), vec![(0, 5, 5)]);
}

#[test]
fn decode_errors() {
    let two = || Some(vec![file(5, &["a"]), file(7, &["b"])]);
    assert_eq!(Info::new("n".to_string(), 4, &vec![], None, two()).err(), Some(DecodeError::EmptyPieces));
    assert_eq!(
        Info::new("n".to_string(), 4, &vec![0u8; 21], None, two()).err(),
        Some(DecodeError::PiecesNotMultipleOfDigest)
    );
    assert_eq!(Info::new("n".to_string(), 4, &digests(3), None, None).err(), Some(DecodeError::MissingLength));
    assert_eq!(Info::new("n".to_string(), 4, &digests(3), None, Some(vec![])).err(), Some(DecodeError::EmptyFiles));
    assert_eq!(Info::new("n".to_string(), 0, &digests(3), None, two()).err(), Some(DecodeError::ZeroPieceLength));
    assert_eq!(Info::new(String::new(), 4, &digests(3), None, two()).err(), Some(DecodeError::EmptyName));
    assert_eq!(
        Info::new("n".to_string(), 4, &digests(1), None, Some(vec![file(u64::MAX, &["a"]), file(1, &["b"])])).err(),
        Some(DecodeError::TotalTooLarge)
    );
    assert_eq!(Info::new("n".to_string(), 4, &digests(4), None, two()).err(), Some(DecodeError::MismatchedTotals));
    assert_eq!(Info::new("n".to_string(), 4, &digests(2), None, two()).err(), Some(DecodeError::MismatchedTotals));
}

#[test]
fn digest_bytes_round_trip() {
    let d = Digest([7u8; 20]);
    assert_eq!(d.bytes(), [7u8; 20]);
}
