use cross_seed::candidate::{resolve_candidates, NoCandidate};
use cross_seed::client::{new_instance, ClientKind};
use cross_seed::digest::{check_piece, failed_files, CheckError};
use cross_seed::index::SizeIndex;
use cross_seed::plan::{base_dir, plan_cross_seed, same_path, Match, PlanError, SeedPlan};
use cross_seed::sample::{choose_pieces_to_test, pieces_covering};
use cross_seed::torrent::{File, Info};

const ANNOUNCE: &str = "http://tracker.example.org:6969/announce";

fn comps(p: &str) -> Vec<String> {
    std::path::Path::new(p).components().map(|c| c.as_os_str().to_string_lossy().into_owned()).collect()
}

fn m(declared: &str, local: &str) -> Match {
    Match { declared: comps(declared), local: comps(local) }
}

fn sha1(data: &[u8]) -> Vec<u8> {
    sha1_smol::Sha1::from(data).digest().bytes().to_vec()
}

fn two_file_info(x: &[u8], y: &[u8], piece_length: u64) -> Info {
    let mut payload = x.to_vec();
    payload.extend_from_slice(y);
    let mut hashes = vec![];
    for chunk in payload.chunks(piece_length as usize) {
        hashes.extend(sha1(chunk));
    }
    let files = vec![
        File { length: x.len() as u64, path: comps("a/x") },
        File { length: y.len() as u64, path: comps("a/y") },
    ];
    Info::new("a".to_string(), piece_length, &hashes, None, Some(files)).unwrap()
}

fn read_piece(info: &Info, p: usize, contents: &[&[u8]]) -> Vec<Vec<u8>> {
    info.pieces[p]
        .file_slices
        .iter()
        .map(|s| contents[s.file_index][s.offset as usize..(s.offset + s.length) as usize].to_vec())
        .collect()
}

#[test]
fn direct_seed_multi_file_prefix_match() {
    let plan = plan_cross_seed(false, ANNOUNCE, &comps("/t"), &vec![m("a/x", "/s/pack/a/x"), m("a/y", "/s/pack/a/y")]);
    match plan {
        Ok(SeedPlan::Direct { seed_dir }) => assert_eq!(seed_dir, comps("/s/pack")),
        _ => panic!("expected a direct seed"),
    }
}

#[test]
fn shadow_tree_needed() {
    let plan = plan_cross_seed(false, ANNOUNCE, &comps("/t"), &vec![m("a/x", "/s/x-renamed"), m("a/y", "/s/sub/y")]);
    match plan {
        Ok(SeedPlan::Shadow { base_dir, dirs, links }) => {
            assert_eq!(base_dir, comps("/t/tracker.example.org"));
            assert_eq!(dirs, vec![comps("/t/tracker.example.org/a"), comps("/t/tracker.example.org/a")]);
            assert_eq!(
                links,
                vec![
                    (comps("/t/tracker.example.org/a/x"), comps("/s/x-renamed")),
                    (comps("/t/tracker.example.org/a/y"), comps("/s/sub/y")),
                ]
            );
        }
        _ => panic!("expected a shadow tree"),
    }
}

#[test]
fn shadow_tree_when_roots_differ() {
    let plan = plan_cross_seed(false, ANNOUNCE, &comps("/t"), &vec![m("a/x", "/s/one/a/x"), m("a/y", "/s/two/a/y")]);
    assert!(matches!(plan, Ok(SeedPlan::Shadow { .. })));
}

#[test]
fn single_file_direct_seed() {
    let plan = plan_cross_seed(true, ANNOUNCE, &comps("/t"), &vec![m("movie.mkv", "/media/movie.mkv")]);
    match plan {
        Ok(SeedPlan::Direct { seed_dir }) => assert_eq!(seed_dir, comps("/media")),
        _ => panic!("expected a direct seed"),
    }
}

#[test]
fn single_file_rename() {
    let plan = plan_cross_seed(true, ANNOUNCE, &comps("/t"), &vec![m("movie.mkv", "/media/renamed.mkv")]);
    match plan {
        Ok(SeedPlan::Shadow { base_dir, dirs, links }) => {
            assert_eq!(base_dir, comps("/t/tracker.example.org"));
            assert_eq!(dirs, vec![comps("/t/tracker.example.org")]);
            assert_eq!(links, vec![(comps("/t/tracker.example.org/movie.mkv"), comps("/media/renamed.mkv"))]);
        }
        _ => panic!("expected a shadow tree"),
    }
}

#[test]
fn announce_without_host_is_an_error() {
    let plan = plan_cross_seed(true, "not a url", &comps("/t"), &vec![m("movie.mkv", "/media/renamed.mkv")]);
    assert!(matches!(plan, Err(PlanError::NoHost)));
    assert_eq!(base_dir(&comps("/t"), "not a url"), None);
    // A direct seed needs no host.
    let plan = plan_cross_seed(true, "not a url", &comps("/t"), &vec![m("movie.mkv", "/media/movie.mkv")]);
    assert!(matches!(plan, Ok(SeedPlan::Direct { .. })));
}

#[test]
fn base_dir_appends_host() {
    assert_eq!(base_dir(&comps("/t"), ANNOUNCE), Some(comps("/t/tracker.example.org")));
}

#[test]
fn same_path_compares_components() {
    assert!(same_path(&comps("/a/b"), &comps("/a//b")));
    assert!(!same_path(&comps("/a/b"), &comps("/a/c")));
}

#[test]
fn resolve_by_size_and_path() {
    let mut index = SizeIndex::new();
    index.insert(5, comps("/s/pack/a/x"));
    index.insert(7, comps("/s/pack/a/y"));
    index.insert(7, comps("/s/other/y"));
    index.insert(3, comps("/s/unrelated"));
    let files = vec![File { length: 5, path: comps("a/x") }, File { length: 7, path: comps("a/y") }];
    assert_eq!(index.bucket(7), vec![comps("/s/pack/a/y"), comps("/s/other/y")]);
    let mapping = resolve_candidates(&files, &index).unwrap();
    assert_eq!(mapping, vec![comps("/s/pack/a/x"), comps("/s/pack/a/y")]);
    // The same inputs give the same mapping.
    assert_eq!(resolve_candidates(&files, &index).unwrap(), mapping);
}

#[test]
fn resolve_uses_largest_file_as_hint() {
    let mut index = SizeIndex::new();
    index.insert(9, comps("/s/one/big"));
    index.insert(2, comps("/s/one/small"));
    index.insert(2, comps("/s/two/small"));
    let files = vec![File { length: 2, path: comps("small") }, File { length: 9, path: comps("big") }];
    let mapping = resolve_candidates(&files, &index).unwrap();
    assert_eq!(mapping, vec![comps("/s/one/small"), comps("/s/one/big")]);
}

#[test]
fn resolve_missing_size_is_an_error() {
    let mut index = SizeIndex::new();
    index.insert(5, comps("/s/a/x"));
    let files = vec![File { length: 5, path: comps("a/x") }, File { length: 6, path: comps("a/y") }];
    assert_eq!(resolve_candidates(&files, &index), Err(NoCandidate { file_index: 1 }));
}

#[test]
fn sampling_takes_all_pieces_of_small_files() {
    let info = two_file_info(b"hello", b"cross seeding", 4);
    assert_eq!(pieces_covering(&info, 0), vec![0, 1]);
    assert_eq!(pieces_covering(&info, 1), vec![1, 2, 3, 4]);
    let mut chosen = choose_pieces_to_test(&info, 16);
    chosen.sort();
    assert_eq!(chosen, vec![0, 1, 2, 3, 4]);
    assert!(choose_pieces_to_test(&info, 0).is_empty());
    let some = choose_pieces_to_test(&info, 1);
    assert!(!some.is_empty() && some.len() <= 2);
}

#[test]
fn matching_content_passes() {
    let x: &[u8] = b"hello";
    let y: &[u8] = b"cross seeding";
    let info = two_file_info(x, y, 4);
    for p in 0..info.pieces.len() {
        assert_eq!(check_piece(&info.pieces[p], &read_piece(&info, p, &[x, y])), Ok(true));
    }
}

#[test]
fn hash_mismatch_names_the_file() {
    let info = two_file_info(b"hello", b"cross seeding", 4);
    let x: &[u8] = b"hello";
    let y: &[u8] = b"cross seedinG";
    let tested = choose_pieces_to_test(&info, 16);
    let passed: Vec<bool> =
        tested.iter().map(|&p| check_piece(&info.pieces[p], &read_piece(&info, p, &[x, y])).unwrap()).collect();
    assert_eq!(passed.iter().filter(|b| !**b).count(), 1);
    assert_eq!(failed_files(&info, &tested, &passed), vec![1]);
    let all_pass = vec![true; tested.len()];
    assert!(failed_files(&info, &tested, &all_pass).is_empty());
}

#[test]
fn shared_piece_failure_names_both_files() {
    let info = two_file_info(b"hello", b"cross seeding", 4);
    assert_eq!(failed_files(&info, &vec![1], &vec![false]), vec![0, 1]);
}

#[test]
fn short_read_is_an_error() {
    let info = two_file_info(b"hello", b"cross seeding", 4);
    let data = vec![b"o".to_vec(), b"cr".to_vec()];
    assert_eq!(check_piece(&info.pieces[1], &data), Err(CheckError::ShortRead { slice_index: 1 }));
}

#[test]
fn client_kind_follows_dry_run() {
    assert_eq!(new_instance(true), ClientKind::DryRun);
    assert_eq!(new_instance(false), ClientKind::Synapse);
}
