use sha1::Digest;
use torrent_bootstrap::bencode::{BencodeToken, Parser};
use torrent_bootstrap::choices::{ChoiceConsumer, ChoiceConsumerEntry, ChoiceGenerator};
use torrent_bootstrap::digest::get_sha1_hexdigest;
use torrent_bootstrap::filesystem::{PathCache, PathCacheEntry, PathInterner};
use torrent_bootstrap::metadata::{
    build_raw_torrent_file_metadata, build_raw_torrent_piece_metadata,
    calculate_total_choices_for_piece, discover_and_apply_searches, DefaultExportPathFormatter,
    TorrentFileEntry, TorrentPieceEntry,
};
use torrent_bootstrap::solver::{
    add_preloaded, check_choice, matches_hash, padding_candidate, plan_writes, Candidate, WriteOp,
};
use torrent_bootstrap::torrent::Torrent;

// ---------------------------------------------------------------------------
// Building descriptors
// ---------------------------------------------------------------------------

fn sha1(bytes: &[u8]) -> Vec<u8> {
    sha1::Sha1::digest(bytes).to_vec()
}

fn enc_str(bytes: &[u8]) -> Vec<u8> {
    let mut out = format!("{}:", bytes.len()).into_bytes();
    out.extend_from_slice(bytes);
    out
}

fn enc_int(value: i64) -> Vec<u8> {
    format!("i{}e", value).into_bytes()
}

fn enc_list(items: Vec<Vec<u8>>) -> Vec<u8> {
    let mut out = vec![b'l'];
    for item in items {
        out.extend(item);
    }
    out.push(b'e');
    out
}

/// Entries must be given in ascending key order.
fn enc_dict(entries: Vec<(&str, Vec<u8>)>) -> Vec<u8> {
    let mut out = vec![b'd'];
    for (key, value) in entries {
        out.extend(enc_str(key.as_bytes()));
        out.extend(value);
    }
    out.push(b'e');
    out
}

fn pieces_of(chunks: &[&[u8]]) -> Vec<u8> {
    let mut out = Vec::new();
    for chunk in chunks {
        out.extend(sha1(chunk));
    }
    out
}

fn single_info(name: &str, length: i64, piece_length: i64, chunks: &[&[u8]]) -> Vec<u8> {
    enc_dict(vec![
        ("length", enc_int(length)),
        ("name", enc_str(name.as_bytes())),
        ("piece length", enc_int(piece_length)),
        ("pieces", enc_str(&pieces_of(chunks))),
    ])
}

fn multi_info(name: &str, files: &[(&[&str], i64)], piece_length: i64, chunks: &[&[u8]]) -> Vec<u8> {
    let files = files
        .iter()
        .map(|(path, length)| {
            enc_dict(vec![
                ("length", enc_int(*length)),
                ("path", enc_list(path.iter().map(|p| enc_str(p.as_bytes())).collect())),
            ])
        })
        .collect();
    enc_dict(vec![
        ("files", enc_list(files)),
        ("name", enc_str(name.as_bytes())),
        ("piece length", enc_int(piece_length)),
        ("pieces", enc_str(&pieces_of(chunks))),
    ])
}

fn descriptor(info: Vec<u8>) -> Vec<u8> {
    enc_dict(vec![("announce", enc_str(b"http://tracker")), ("info", info)])
}

fn parts(path: &str) -> Vec<String> {
    path.split('/').filter(|p| !p.is_empty()).map(|p| p.to_string()).collect()
}

// ---------------------------------------------------------------------------
// Running the core on files held in memory
// ---------------------------------------------------------------------------

struct DiskFile {
    path: Vec<String>,
    bytes: Vec<u8>,
    device: u64,
    inode: u64,
}

fn disk(path: &str, bytes: &[u8], inode: u64) -> DiskFile {
    DiskFile { path: parts(path), bytes: bytes.to_vec(), device: 1, inode }
}

struct Outcome {
    interner: Vec<Vec<String>>,
    files: Vec<TorrentFileEntry>,
    pieces: Vec<TorrentPieceEntry>,
    preloaded: Vec<Vec<Vec<Candidate>>>,
    solved: Vec<Option<(Vec<u8>, Vec<Option<usize>>)>>,
    writes: Vec<Vec<WriteOp>>,
}

fn run_core(torrents: &[Torrent], files_on_disk: &[DiskFile], threads: usize) -> Outcome {
    let mut interner = PathInterner::new();
    let export_root = parts("/export");
    let mut files = build_raw_torrent_file_metadata::<DefaultExportPathFormatter>(torrents, &mut interner, &export_root);
    let mut cache = PathCache::new();
    for file in files_on_disk {
        let id = interner.get_or_put_clone(&file.path);
        cache.upsert_by_id(
            id,
            PathCacheEntry { file_length: file.bytes.len() as u64, device_node: file.device, index_node: file.inode },
        );
    }
    let interner = interner.freeze();
    let cache = cache.freeze();
    discover_and_apply_searches(&mut files, &cache, &interner);
    let mut pieces = build_raw_torrent_piece_metadata(torrents);
    calculate_total_choices_for_piece(&files, &mut pieces);

    let bytes_of = |id: usize| -> &[u8] {
        let path = interner.get(id);
        &files_on_disk.iter().find(|f| &f.path == path).unwrap().bytes
    };
    let mut all_preloaded = Vec::new();
    let mut solved = Vec::new();
    let mut writes = Vec::new();
    for piece in &pieces {
        let mut preloaded: Vec<Vec<Candidate>> = Vec::new();
        if !piece.total_choices.is_empty() {
            for segment in &piece.files {
                let file = &files[segment.file_id];
                let mut results = Vec::new();
                if file.padding {
                    results.push(padding_candidate(segment.read_length as usize));
                } else {
                    for &id in file.searches.as_ref().unwrap() {
                        let start = segment.read_start_position as usize;
                        let end = start + segment.read_length as usize;
                        add_preloaded(&mut results, Some(id), bytes_of(id)[start..end].to_vec());
                    }
                }
                preloaded.push(results);
            }
        }
        let counts: Vec<usize> = preloaded.iter().map(|c| c.len()).collect();
        let mut generator = ChoiceGenerator::empty();
        generator.reset_from(&counts, threads);
        let mut consumer = ChoiceConsumer::empty();
        let mut found = None;
        while !generator.ended() && found.is_none() {
            generator.get(&mut consumer);
            generator.next();
            while !consumer.ended() {
                if let Some(result) = check_choice(&preloaded, &consumer, &piece.hash) {
                    found = Some((result.bytes, result.paths));
                    break;
                }
                consumer.next();
            }
        }
        let ops = match &found {
            Some((bytes, paths)) => plan_writes(piece, &files, paths, bytes.len()).unwrap(),
            None => Vec::new(),
        };
        writes.push(ops);
        solved.push(found);
        all_preloaded.push(preloaded);
    }
    Outcome { interner: interner.vec.clone(), files, pieces, preloaded: all_preloaded, solved, writes }
}

fn torrent(bytes: &[u8]) -> Torrent {
    Torrent::from_bytes(bytes).unwrap_or_else(|e| panic!("descriptor refused: {}", e.message))
}

fn id_of(outcome: &Outcome, path: &str) -> usize {
    let p = parts(path);
    outcome.interner.iter().position(|q| *q == p).unwrap()
}

/// What the export tree holds after the writes, one file per export path.
fn export_tree(outcome: &Outcome) -> Vec<(Vec<String>, Vec<u8>)> {
    let mut tree: Vec<(Vec<String>, Vec<u8>)> = Vec::new();
    for (piece, ops) in outcome.writes.iter().enumerate() {
        let bytes = &outcome.solved[piece].as_ref().unwrap().0;
        for op in ops {
            let path = outcome.interner[op.export_target].clone();
            let index = match tree.iter().position(|(p, _)| *p == path) {
                Some(index) => index,
                None => {
                    tree.push((path, vec![0; op.file_length as usize]));
                    tree.len() - 1
                }
            };
            let start = op.write_position as usize;
            tree[index].1[start..start + (op.to - op.from)].copy_from_slice(&bytes[op.from..op.to]);
        }
    }
    tree
}

// ---------------------------------------------------------------------------
// End-to-end scenarios
// ---------------------------------------------------------------------------

#[test]
fn single_file_identity() {
    let info = single_info("a.bin", 4, 4, &[b"ABCD"]);
    let info_hash = sha1(&info);
    let t = torrent(&descriptor(info));
    assert_eq!(info_hash, t.info_hash);
    let outcome = run_core(&[t], &[disk("/scan/x/a.bin", b"ABCD", 1)], 1);
    assert_eq!(1, outcome.solved.len());
    assert_eq!(b"ABCD".to_vec(), outcome.solved[0].as_ref().unwrap().0);
    let tree = export_tree(&outcome);
    let expected_path = parts(&format!("/export/{}/Data/a.bin", get_sha1_hexdigest(&info_hash)));
    assert_eq!(vec![(expected_path, b"ABCD".to_vec())], tree);
}

#[test]
fn single_file_two_pieces() {
    let t = torrent(&descriptor(single_info("a.bin", 5, 4, &[b"ABCD", b"E"])));
    let outcome = run_core(&[t], &[disk("/scan/a.bin", b"ABCDE", 1)], 1);
    assert!(outcome.solved.iter().all(|s| s.is_some()));
    assert_eq!(b"E".to_vec(), outcome.solved[1].as_ref().unwrap().0);
    let tree = export_tree(&outcome);
    assert_eq!(1, tree.len());
    assert_eq!(5, tree[0].1.len());
    assert_eq!(b"ABCDE".to_vec(), tree[0].1);
}

#[test]
fn multi_file_cross_boundary() {
    let info = multi_info("set", &[(&["f1"], 3), (&["f2"], 3)], 4, &[b"ABCD", b"EF"]);
    let t = torrent(&descriptor(info));
    let outcome = run_core(&[t], &[disk("/scan/src/f1", b"ABC", 1), disk("/scan/src/f2", b"DEF", 2)], 1);
    assert_eq!(2, outcome.pieces.len());
    assert_eq!(2, outcome.pieces[0].files.len());
    assert_eq!(b"ABCD".to_vec(), outcome.solved[0].as_ref().unwrap().0);
    assert_eq!(b"EF".to_vec(), outcome.solved[1].as_ref().unwrap().0);
    let tree = export_tree(&outcome);
    assert_eq!(2, tree.len());
    assert_eq!(b"ABC".to_vec(), tree[0].1);
    assert_eq!(b"DEF".to_vec(), tree[1].1);
}

#[test]
fn padding_file_counts_as_zeros() {
    let first: &[u8] = b"AAAA\x00\x00\x00\x00";
    let info = multi_info("set", &[(&["real"], 4), (&[".pad", "4"], 4), (&["real2"], 4)], 8, &[first, b"BBBB"]);
    let t = torrent(&descriptor(info));
    let outcome = run_core(&[t], &[disk("/scan/real", b"AAAA", 1), disk("/scan/real2", b"BBBB", 2)], 1);
    assert!(outcome.files[1].padding);
    assert_eq!(first.to_vec(), outcome.solved[0].as_ref().unwrap().0);
    assert!(outcome.solved[1].is_some());
    // Padding is never written.
    assert!(outcome.writes.iter().flatten().all(|op| op.file_id != 1));
    assert_eq!(2, export_tree(&outcome).len());
}

#[test]
fn hard_links_preload_one_candidate() {
    let t = torrent(&descriptor(single_info("a", 4, 4, &[b"WXYZ"])));
    let files = [disk("/scan/src/a", b"WXYZ", 7), disk("/scan/src/b", b"WXYZ", 7)];
    let outcome = run_core(&[t], &files, 1);
    let a = id_of(&outcome, "/scan/src/a");
    assert_eq!(Some(vec![a]), outcome.files[0].searches);
    assert_eq!(1, outcome.preloaded[0][0].len());
    assert_eq!(Some(a), outcome.preloaded[0][0][0].path_id);
}

#[test]
fn multi_candidate_search_picks_the_match() {
    let t = torrent(&descriptor(single_info("data.bin", 4, 4, &[b"GOOD"])));
    let files = [disk("/scan/src/wrong", b"BAD!", 1), disk("/scan/src/right", b"GOOD", 2)];
    let outcome = run_core(&[t], &files, 1);
    let right = id_of(&outcome, "/scan/src/right");
    assert_eq!(vec![Some(right)], outcome.solved[0].as_ref().unwrap().1);
}

#[test]
fn rerun_on_written_export_skips_writes() {
    let info = single_info("a.bin", 4, 4, &[b"ABCD"]);
    let hex = get_sha1_hexdigest(&sha1(&info));
    let t = torrent(&descriptor(info));
    let export = format!("/export/{}/Data/a.bin", hex);
    let files = [disk(&export, b"ABCD", 1), disk("/scan/a.bin", b"ABCD", 2)];
    let outcome = run_core(&[t], &files, 1);
    // The export path ranks first and its bytes match: nothing to write.
    assert_eq!(vec![Some(id_of(&outcome, &export))], outcome.solved[0].as_ref().unwrap().1);
    assert!(outcome.writes[0].is_empty());
}

#[test]
fn hard_links_do_not_change_results() {
    let info = multi_info("set", &[(&["f1"], 3), (&["f2"], 3)], 4, &[b"ABCD", b"EF"]);
    let base = [disk("/scan/f1", b"ABC", 1), disk("/scan/f2", b"DEF", 2)];
    let linked = [
        disk("/scan/f1", b"ABC", 1),
        disk("/scan/f2", b"DEF", 2),
        disk("/scan/other/link1", b"ABC", 1),
        disk("/scan/other/link2", b"DEF", 2),
    ];
    let first = run_core(&[torrent(&descriptor(info.clone()))], &base, 2);
    let second = run_core(&[torrent(&descriptor(info))], &linked, 2);
    let bytes = |o: &Outcome| o.solved.iter().map(|s| s.as_ref().map(|(b, _)| b.clone())).collect::<Vec<_>>();
    assert_eq!(bytes(&first), bytes(&second));
    assert_eq!(export_tree(&first), export_tree(&second));
}

#[test]
fn unmatched_piece_is_not_solved() {
    let t = torrent(&descriptor(single_info("a.bin", 4, 4, &[b"ABCD"])));
    let outcome = run_core(&[t], &[disk("/scan/a.bin", b"ZZZZ", 1)], 1);
    assert!(outcome.solved[0].is_none());
    let missing = run_core(&[torrent(&descriptor(single_info("a.bin", 4, 4, &[b"ABCD"])))], &[disk("/scan/a.bin", b"ABC", 1)], 1);
    assert!(missing.pieces[0].total_choices.is_empty());
}

// ---------------------------------------------------------------------------
// Properties on concrete values
// ---------------------------------------------------------------------------

#[test]
fn scheduler_covers_the_product_once() {
    for target in 1..8 {
        let choices: &[usize] = &[2, 3, 2];
        let mut generator = ChoiceGenerator::empty();
        let mut consumer = ChoiceConsumer::empty();
        generator.reset_from(choices, target);
        let mut seen: Vec<Vec<usize>> = Vec::new();
        while !generator.ended() {
            generator.get(&mut consumer);
            while !consumer.ended() {
                seen.push((0..consumer.len()).map(|i| consumer.get(i).get()).collect());
                consumer.next();
            }
            generator.next();
        }
        let mut expected = Vec::new();
        for a in 0..2 {
            for b in 0..3 {
                for c in 0..2 {
                    expected.push(vec![a, b, c]);
                }
            }
        }
        seen.sort();
        assert_eq!(expected, seen);
    }
}

#[test]
fn split_reaches_the_target_with_fewest_tasks() {
    let choices: &[usize] = &[2, 3, 2];
    let mut generator = ChoiceGenerator::empty();
    let mut consumer = ChoiceConsumer::empty();
    generator.reset_from(choices, 5);
    let mut tasks = 0;
    while !generator.ended() {
        generator.get(&mut consumer);
        let masks = (0..consumer.len()).filter(|&i| matches!(consumer.get(i), ChoiceConsumerEntry::Mask(_))).count();
        assert!(masks > 0);
        tasks += 1;
        generator.next();
    }
    assert_eq!(6, tasks);
}

#[test]
fn zero_choices_give_no_task() {
    let mut generator = ChoiceGenerator::empty();
    generator.reset_from(&[3, 0, 2], 2);
    assert!(generator.ended());
}

#[test]
fn nested_unsorted_keys_rejected() {
    assert!(Parser::decode(b"d1:ad1:b1:x1:a1:yee").is_err());
    assert!(Parser::decode(b"d1:ad1:a1:x1:b1:yee").is_ok());
}

#[test]
fn leading_zero_integer_rejected() {
    assert!(Parser::decode(b"i03e").is_err());
    assert!(Parser::decode(b"i-03e").is_err());
    assert!(Parser::decode(b"i0e").is_ok());
}

#[test]
fn empty_string_decodes_to_no_bytes() {
    match Parser::decode(b"0:").unwrap() {
        BencodeToken::String(s) => assert!(s.value.is_empty()),
        _ => panic!("expected a string"),
    }
}

#[test]
fn trailing_bytes_rejected() {
    assert!(Parser::decode(b"i1ei2e").is_err());
    assert!(Parser::decode(b"lee").is_err());
}

#[test]
fn negative_integer_decodes() {
    match Parser::decode(b"i-42e").unwrap() {
        BencodeToken::Integer(i) => assert_eq!(-42, i.value),
        _ => panic!("expected an integer"),
    }
}

#[test]
fn piece_count_follows_total_length() {
    let t = torrent(&descriptor(multi_info("set", &[(&["a"], 5), (&["b"], 6)], 4, &[b"1", b"2", b"3"])));
    assert_eq!(3, t.info.pieces.len());
    let too_few = descriptor(multi_info("set", &[(&["a"], 5), (&["b"], 6)], 4, &[b"1", b"2"]));
    assert!(Torrent::from_bytes(&too_few).is_err());
}

#[test]
fn descriptor_errors() {
    // Both length and files.
    let both = enc_dict(vec![
        ("files", enc_list(vec![enc_dict(vec![("length", enc_int(1)), ("path", enc_list(vec![enc_str(b"a")]))])])),
        ("length", enc_int(1)),
        ("name", enc_str(b"n")),
        ("piece length", enc_int(4)),
        ("pieces", enc_str(&pieces_of(&[b"x"]))),
    ]);
    assert!(Torrent::from_bytes(&descriptor(both)).is_err());
    // Neither length nor files.
    let neither = enc_dict(vec![
        ("name", enc_str(b"n")),
        ("piece length", enc_int(4)),
        ("pieces", enc_str(b"")),
    ]);
    assert!(Torrent::from_bytes(&descriptor(neither)).is_err());
    // A negative length.
    assert!(Torrent::from_bytes(&descriptor(single_info("n", -1, 4, &[]))).is_err());
    // A zero piece length.
    assert!(Torrent::from_bytes(&descriptor(single_info("n", 0, 0, &[]))).is_err());
    // An empty path.
    let empty_path = multi_info("set", &[(&[], 1)], 4, &[b"x"]);
    assert!(Torrent::from_bytes(&descriptor(empty_path)).is_err());
    // A name that is not UTF-8.
    let bad_name = enc_dict(vec![
        ("length", enc_int(1)),
        ("name", enc_str(&[0xff, 0xfe])),
        ("piece length", enc_int(4)),
        ("pieces", enc_str(&pieces_of(&[b"x"]))),
    ]);
    assert!(Torrent::from_bytes(&descriptor(bad_name)).is_err());
    // A root that is not a dictionary.
    assert!(Torrent::from_bytes(b"le").is_err());
    // Digests that are not 20 bytes each.
    let short = enc_dict(vec![
        ("length", enc_int(1)),
        ("name", enc_str(b"n")),
        ("piece length", enc_int(4)),
        ("pieces", enc_str(b"0123456789")),
    ]);
    assert!(Torrent::from_bytes(&descriptor(short)).is_err());
}

#[test]
fn info_hash_covers_the_info_bytes() {
    let info = single_info("a.bin", 4, 4, &[b"ABCD"]);
    let t = torrent(&descriptor(info.clone()));
    assert_eq!(sha1(&info), t.info_hash);
    assert_eq!(Some("http://tracker".to_string()), t.announce);
    assert_eq!("a.bin", t.info.name);
}

#[test]
fn hash_match_checks_the_digest() {
    let digest = sha1(b"ABCD");
    assert!(matches_hash(b"ABCD", &digest));
    assert!(!matches_hash(b"ABCE", &digest));
}

#[test]
fn hex_digest_is_lowercase_two_digits_per_byte() {
    assert_eq!("00ff0a", get_sha1_hexdigest(&[0x00, 0xff, 0x0a]));
    assert_eq!("", get_sha1_hexdigest(&[]));
}
