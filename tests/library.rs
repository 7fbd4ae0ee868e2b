use torrent_bootstrap::bencode::{Bencode, BencodeToken};
use torrent_bootstrap::choices::{ChoiceConsumer, ChoiceGenerator};
use torrent_bootstrap::executor::{rebalance, Task};
use torrent_bootstrap::filesystem::{PathCache, PathCacheEntry, PathInterner};
use torrent_bootstrap::metadata::{deduplicate_torrents, pending_order, record_outcome, PieceOutcome};
use torrent_bootstrap::pieces::{Piece, PieceFile, Pieces};
use torrent_bootstrap::metadata::{build_global_torrent_state, find_file_similarity, format_path_multiple, format_path_single};
use torrent_bootstrap::solver::{add_preloaded, padding_candidate, plan_writes, Candidate};
use torrent_bootstrap::metadata::{TorrentFileEntry, TorrentPieceEntry, TorrentPieceFileEntry, TorrentProcessState};
use torrent_bootstrap::torrent::{File, Info, Torrent};

fn parts(path: &str) -> Vec<String> {
    path.split('/').filter(|p| !p.is_empty()).map(|p| p.to_string()).collect()
}

#[test]
fn bencode_entry_point_decodes_whole_input() {
    match Bencode::decode(b"l1:ai7ee").unwrap() {
        BencodeToken::List(list) => assert_eq!(2, list.value.len()),
        _ => panic!("expected a list"),
    }
    assert!(Bencode::decode(b"l1:ai7eex").is_err());
}

#[test]
fn interner_gives_one_id_per_path() {
    let mut interner = PathInterner::new();
    let a = interner.put(parts("/x/a"));
    let b = interner.put(parts("/x/b"));
    let again = interner.get_or_put_clone(&parts("/x/a"));
    assert_eq!(0, a);
    assert_eq!(1, b);
    assert_eq!(a, again);
    assert!(interner.has_key(&parts("/x/b")));
    assert!(!interner.has_key(&parts("/x/c")));
    assert_eq!(b, interner.get(&parts("/x/b")));
    assert_eq!(&parts("/x/b"), interner.get_by_id(b));
    let frozen = interner.freeze();
    assert_eq!(&parts("/x/a"), frozen.get(a));
}

#[test]
fn cache_records_entries_by_id() {
    let mut cache = PathCache::new();
    let entry = PathCacheEntry { file_length: 10, device_node: 1, index_node: 2 };
    cache.upsert_by_id(3, entry);
    assert!(cache.contains(3));
    assert!(!cache.contains(2));
    let replaced = PathCacheEntry { file_length: 11, device_node: 1, index_node: 2 };
    cache.upsert_by_id(3, replaced);
    let frozen = cache.freeze();
    assert_eq!(11, frozen.get(3).length());
    assert_eq!(1, frozen.get(3).device_node());
    assert_eq!(2, frozen.get(3).index_node());
    assert!(entry.same_node(&replaced));
}

#[test]
fn similarity_ranks() {
    let export = parts("/export/abc/Data/set/dir/f.bin");
    let relative = parts("dir/f.bin");
    assert_eq!(0, find_file_similarity(&export, &relative, &export));
    assert_eq!(1, find_file_similarity(&parts("/scan/dir/f.bin"), &relative, &export));
    assert_eq!(2, find_file_similarity(&parts("/scan/other/f.bin"), &relative, &export));
    assert_eq!(3, find_file_similarity(&parts("/scan/other/g.bin"), &relative, &export));
}

fn sample_torrent() -> Torrent {
    Torrent {
        announce: None,
        announce_list: None,
        info: Info {
            name: "set".to_string(),
            length: None,
            files: Some(vec![File { length: 3, path: vec!["dir".to_string(), "f.bin".to_string()] }]),
            piece_length: 4,
            pieces: vec![vec![0; 20]],
            private: None,
        },
        creation_date: None,
        comment: None,
        created_by: None,
        info_hash: vec![0xab, 0x01],
    }
}

#[test]
fn export_paths_follow_the_layout() {
    let torrent = sample_torrent();
    let root = parts("/export");
    assert_eq!(parts("/export/ab01/Data/set"), format_path_single(&torrent, &root));
    let file = &torrent.info.files.as_ref().unwrap()[0];
    assert_eq!(parts("/export/ab01/Data/set/dir/f.bin"), format_path_multiple(file, &torrent, &root));
}

#[test]
fn padding_detection() {
    let pad = File { length: 4, path: vec![".pad".to_string(), "12".to_string()] };
    let not_digits = File { length: 4, path: vec![".pad".to_string(), "x1".to_string()] };
    let too_long = File { length: 4, path: vec![".pad".to_string(), "1".to_string(), "2".to_string()] };
    assert!(pad.padding());
    assert!(!not_digits.padding());
    assert!(!too_long.padding());
}

#[test]
fn preload_drops_equal_bytes() {
    let mut results: Vec<Candidate> = Vec::new();
    add_preloaded(&mut results, Some(1), b"abc".to_vec());
    add_preloaded(&mut results, Some(2), b"abc".to_vec());
    add_preloaded(&mut results, Some(3), b"abd".to_vec());
    assert_eq!(2, results.len());
    assert_eq!(Some(1), results[0].path_id);
    assert_eq!(Some(3), results[1].path_id);
    let padding = padding_candidate(3);
    assert_eq!(None, padding.path_id);
    assert_eq!(vec![0, 0, 0], padding.bytes);
}

fn file_entry(file_id: usize, export_target: usize, padding: bool) -> TorrentFileEntry {
    TorrentFileEntry {
        file_id,
        torrent_id: 0,
        file_length: 8,
        export_target,
        relative_target: 0,
        padding,
        searches: None,
        processing_state: TorrentProcessState::new(1),
    }
}

#[test]
fn writes_skip_padding_and_bytes_in_place() {
    let files = vec![file_entry(0, 10, false), file_entry(1, 11, true), file_entry(2, 12, false)];
    let piece = TorrentPieceEntry {
        piece_id: 0,
        hash: vec![0; 20],
        torrent_id: 0,
        position: 0,
        files: vec![
            TorrentPieceFileEntry { read_length: 2, read_start_position: 6, file_id: 0 },
            TorrentPieceFileEntry { read_length: 3, read_start_position: 0, file_id: 1 },
            TorrentPieceFileEntry { read_length: 3, read_start_position: 0, file_id: 2 },
        ],
        length: 8,
        total_choices: vec![1, 1, 1],
    };
    let ops = plan_writes(&piece, &files, &vec![Some(5), None, Some(7)], 8).unwrap();
    assert_eq!(2, ops.len());
    assert_eq!((10, 6, 0, 2), (ops[0].export_target, ops[0].write_position, ops[0].from, ops[0].to));
    assert_eq!((12, 0, 5, 8), (ops[1].export_target, ops[1].write_position, ops[1].from, ops[1].to));
    // The first segment already came from its export path.
    let in_place = plan_writes(&piece, &files, &vec![Some(10), None, Some(7)], 8).unwrap();
    assert_eq!(1, in_place.len());
    // Too few bytes for the segments.
    assert!(plan_writes(&piece, &files, &vec![Some(5), None, Some(7)], 7).is_none());
}

#[test]
fn rebalance_packs_tasks_to_the_front() {
    let mut slots = vec![None, Some('a'), None, Some('b')];
    assert_eq!(Some(1), rebalance(&mut slots, 3));
    assert_eq!(vec![Some('a'), Some('b'), None, None], slots);
    let mut empty: Vec<Option<char>> = vec![None, None];
    assert_eq!(None, rebalance(&mut empty, 0));
}

#[test]
fn task_hands_out_every_task_then_stops() {
    let mut task = Task::new(4, 2);
    let mut consumer = ChoiceConsumer::empty();
    let mut handed = 0;
    while task.take(&[2, 3], false, &mut consumer) {
        assert!(!consumer.ended());
        handed += 1;
    }
    assert_eq!(2, handed);
    let mut solved = Task::new(5, 2);
    assert!(!solved.take(&[2, 3], true, &mut consumer));
    let mut generator = ChoiceGenerator::empty();
    generator.reset_from(&[2, 3], 2);
    assert!(!generator.ended());
}

#[test]
fn global_state_counts_every_piece() {
    let torrent = sample_torrent();
    let state = build_global_torrent_state(&[torrent.clone(), torrent]);
    assert_eq!(2, state.total_pieces);
    assert_eq!(0, state.success_pieces);
}

fn torrent_with(length: Option<u64>, files: Option<Vec<(Vec<&str>, u64)>>, piece_length: u64, pieces: usize, hash: u8) -> Torrent {
    Torrent {
        announce: None,
        announce_list: None,
        info: Info {
            name: "a.bin".to_string(),
            length,
            files: files.map(|fs| {
                fs.into_iter()
                    .map(|(path, length)| File { length, path: path.into_iter().map(|p| p.to_string()).collect() })
                    .collect()
            }),
            piece_length,
            pieces: (0..pieces).map(|i| vec![i as u8; 20]).collect(),
            private: None,
        },
        creation_date: None,
        comment: None,
        created_by: None,
        info_hash: vec![hash; 20],
    }
}

fn seg(read_length: u64, read_start_position: u64, file_index: usize, file_length: u64) -> PieceFile {
    PieceFile { read_length, read_start_position, file_index, file_length }
}

#[test]
fn plan_single_file_two_pieces() {
    let plan = Pieces::from_torrent(&torrent_with(Some(5), None, 4, 2, 0));
    assert_eq!(
        vec![
            Piece { position: 0, files: vec![seg(4, 0, 0, 5)], hash: vec![0; 20], length: 4 },
            Piece { position: 1, files: vec![seg(1, 4, 0, 5)], hash: vec![1; 20], length: 1 },
        ],
        plan
    );
}

#[test]
fn plan_multi_file_cross_boundary() {
    let plan = Pieces::from_torrent(&torrent_with(None, Some(vec![(vec!["f1"], 3), (vec!["f2"], 3)]), 4, 2, 0));
    assert_eq!(vec![seg(3, 0, 0, 3), seg(1, 0, 1, 3)], plan[0].files);
    assert_eq!(4, plan[0].length);
    assert_eq!(vec![seg(2, 1, 1, 3)], plan[1].files);
    assert_eq!(2, plan[1].length);
}

#[test]
fn plan_with_padding_file() {
    let files = vec![(vec!["real"], 4), (vec![".pad", "4"], 4), (vec!["real2"], 4)];
    let plan = Pieces::from_torrent(&torrent_with(None, Some(files), 8, 2, 0));
    assert_eq!(vec![seg(4, 0, 0, 4), seg(4, 0, 1, 4)], plan[0].files);
    assert_eq!(8, plan[0].length);
    assert_eq!(vec![seg(4, 0, 2, 4)], plan[1].files);
    assert_eq!(4, plan[1].length);
}

#[test]
fn no_split_reaching_the_target_gives_one_task() {
    let mut generator = ChoiceGenerator::empty();
    generator.reset_from(&[2, 2, 4, 5], 81);
    let mut tasks = 0;
    while !generator.ended() {
        tasks += 1;
        generator.next();
    }
    assert_eq!(1, tasks);
}

#[test]
fn outcomes_are_counted() {
    let mut state = TorrentProcessState::new(4);
    record_outcome(&mut state, PieceOutcome::Solved { written: true });
    record_outcome(&mut state, PieceOutcome::Solved { written: false });
    record_outcome(&mut state, PieceOutcome::Failed);
    record_outcome(&mut state, PieceOutcome::Faulted);
    assert_eq!((2, 1, 1, 1, 1), (state.success_pieces, state.writable_pieces, state.ignored_pieces, state.failed_pieces, state.fault_pieces));
}

#[test]
fn duplicate_descriptors_keep_the_first() {
    let first = torrent_with(Some(1), None, 4, 1, 7);
    let mut second = torrent_with(Some(1), None, 4, 1, 7);
    second.info.name = "other".to_string();
    let third = torrent_with(Some(1), None, 4, 1, 8);
    let kept = deduplicate_torrents(vec![first, second, third]);
    assert_eq!(2, kept.len());
    assert_eq!("a.bin", kept[0].info.name);
    assert_eq!(vec![8; 20], kept[1].info_hash);
}

#[test]
fn pending_pieces_start_with_the_most_segments() {
    let piece = |id: usize, segments: usize| TorrentPieceEntry {
        piece_id: id,
        hash: vec![0; 20],
        torrent_id: 0,
        position: id,
        files: (0..segments).map(|_| TorrentPieceFileEntry { read_length: 1, read_start_position: 0, file_id: 0 }).collect(),
        length: segments as u64,
        total_choices: Vec::new(),
    };
    let pieces = vec![piece(0, 1), piece(1, 3), piece(2, 2), piece(3, 3)];
    let order = pending_order(&pieces);
    let counts: Vec<usize> = order.iter().map(|&id| pieces[id].files.len()).collect();
    assert_eq!(vec![3, 3, 2, 1], counts);
    let mut sorted = order.clone();
    sorted.sort();
    assert_eq!(vec![0, 1, 2, 3], sorted);
}
