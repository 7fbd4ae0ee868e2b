use vstd::prelude::*;
use vstd::string::*;
use crate::digest::{ascii_chars, get_sha1_hexdigest, hex_bytes};
use crate::filesystem::{
    FrozenPathCache, FrozenPathInterner, PathCacheEntry, PathInterner, copy_path, ends_with,
    path_ends_with, path_view,
};
use crate::pieces::{Piece, Pieces, plan_ok, segment_ok};
use crate::torrent::{File, Torrent};

verus! {

// ---------------------------------------------------------------------------
// Records
// ---------------------------------------------------------------------------

#[derive(Debug, Clone, Copy)]
pub struct TorrentProcessState {
    /// Pieces that were found on disk.
    pub success_pieces: usize,
    /// Pieces that no combination of candidates matched.
    pub failed_pieces: usize,
    /// Pieces whose processing met an error, such as an I/O error.
    pub fault_pieces: usize,
    /// Pieces that were written.
    pub writable_pieces: usize,
    /// Pieces that needed no write: padding, or bytes already at the export path.
    pub ignored_pieces: usize,
    /// Every piece that may ever be counted.
    pub total_pieces: usize,
}

impl TorrentProcessState {
    pub fn new(total_pieces: usize) -> (r: TorrentProcessState)
        ensures
            r.success_pieces == 0,
            r.failed_pieces == 0,
            r.fault_pieces == 0,
            r.writable_pieces == 0,
            r.ignored_pieces == 0,
            r.total_pieces == total_pieces,
    {
        TorrentProcessState {
            success_pieces: 0,
            failed_pieces: 0,
            fault_pieces: 0,
            writable_pieces: 0,
            ignored_pieces: 0,
            total_pieces,
        }
    }
}

/// One segment of a piece: `read_length` bytes of file record `file_id`.
#[derive(Debug, Clone, Copy)]
pub struct TorrentPieceFileEntry {
    pub read_length: u64,
    pub read_start_position: u64,
    pub file_id: usize,
}

#[derive(Debug)]
pub struct TorrentPieceEntry {
    pub piece_id: usize,
    pub hash: Vec<u8>,
    pub torrent_id: usize,
    pub position: usize,
    pub files: Vec<TorrentPieceFileEntry>,
    pub length: u64,
    /// The number of candidates of each segment; empty where the piece cannot be solved.
    pub total_choices: Vec<usize>,
}

#[derive(Debug)]
pub struct TorrentFileEntry {
    pub file_id: usize,
    pub torrent_id: usize,
    pub file_length: u64,
    pub export_target: usize,
    pub relative_target: usize,
    pub padding: bool,
    pub searches: Option<Vec<usize>>,
    pub processing_state: TorrentProcessState,
}

// ---------------------------------------------------------------------------
// Files and pieces of several descriptors
// ---------------------------------------------------------------------------

/// The lengths of the files of all descriptors, one after the other.
pub open spec fn all_file_lengths(ts: Seq<Torrent>) -> Seq<u64>
    decreases ts.len(),
{
    if ts.len() == 0 {
        Seq::empty()
    } else {
        all_file_lengths(ts.drop_last()) + ts.last().info.file_lengths()
    }
}

/// Whether each file of all descriptors is padding, one after the other.
pub open spec fn all_file_padding(ts: Seq<Torrent>) -> Seq<bool>
    decreases ts.len(),
{
    if ts.len() == 0 {
        Seq::empty()
    } else {
        all_file_padding(ts.drop_last()) + match ts.last().info.length {
            Some(_) => seq![false],
            None => match ts.last().info.files {
                Some(fs) => fs@.map_values(|f: File| f.spec_padding()),
                None => Seq::empty(),
            },
        }
    }
}

proof fn lemma_all_file_lengths_prefix(ts: Seq<Torrent>, k: int, j: int)
    requires
        0 <= k <= ts.len(),
        0 <= j < all_file_lengths(ts.subrange(0, k)).len(),
    ensures
        j < all_file_lengths(ts).len(),
        all_file_lengths(ts)[j] == all_file_lengths(ts.subrange(0, k))[j],
    decreases ts.len() - k,
{
    if k < ts.len() {
        assert(ts.subrange(0, k + 1).drop_last() =~= ts.subrange(0, k));
        lemma_all_file_lengths_prefix(ts, k + 1, j);
    } else {
        assert(ts.subrange(0, k) =~= ts);
    }
}

/// Record `e` is piece `p` of descriptor `k`, numbered `id`, its file indices moved past
/// the `base` files of the descriptors before `k`.
pub open spec fn record_matches(e: TorrentPieceEntry, p: Piece, id: int, k: int, base: int) -> bool {
    &&& e.piece_id == id
    &&& e.torrent_id == k
    &&& e.position == p.position
    &&& e.hash@ == p.hash@
    &&& e.length == p.length
    &&& e.total_choices@.len() == 0
    &&& e.files@.len() == p.files@.len()
    &&& forall|s: int|
        0 <= s < e.files@.len() ==> {
            &&& (#[trigger] e.files@[s]).file_id == base + p.files@[s].file_index
            &&& e.files@[s].read_length == p.files@[s].read_length
            &&& e.files@[s].read_start_position == p.files@[s].read_start_position
        }
}

/// The number of pieces of the descriptors before `k`.
pub open spec fn pieces_before(ts: Seq<Torrent>, k: int) -> int {
    pieces_total(ts.subrange(0, k))
}

/// The number of files of the descriptors before `k`.
pub open spec fn files_before(ts: Seq<Torrent>, k: int) -> int {
    all_file_lengths(ts.subrange(0, k)).len() as int
}

/// The records of all the read plans, one after the other.
pub open spec fn records_of_plans(r: Seq<TorrentPieceEntry>, ts: Seq<Torrent>, plans: Seq<Seq<Piece>>, upto: int) -> bool {
    &&& plans.len() == upto
    &&& forall|k: int| 0 <= k < upto ==> plan_ok(&ts[k].info, #[trigger] plans[k])
    &&& forall|k: int, j: int|
        0 <= k < upto && 0 <= j < plans[k].len() ==> record_matches(
            #[trigger] r[pieces_before(ts, k) + j],
            #[trigger] plans[k][j],
            pieces_before(ts, k) + j,
            k,
            files_before(ts, k),
        )
}

/// The piece records of all descriptors: the read plan of each descriptor in turn, with
/// file ids into the list of all their files.
pub fn build_raw_torrent_piece_metadata(torrents: &[Torrent]) -> (r: Vec<TorrentPieceEntry>)
    requires
        forall|t: int| 0 <= t < torrents@.len() ==> (#[trigger] torrents@[t]).info.wf(),
        all_file_lengths(torrents@).len() <= usize::MAX,
    ensures
        r@.len() == pieces_total(torrents@),
        exists|plans: Seq<Seq<Piece>>| records_of_plans(r@, torrents@, plans, torrents@.len() as int),
        forall|i: int|
            0 <= i < r@.len() ==> {
                &&& (#[trigger] r@[i]).piece_id == i
                &&& r@[i].torrent_id < torrents@.len()
                &&& r@[i].total_choices@.len() == 0
                &&& forall|k: int|
                    0 <= k < r@[i].files@.len() ==> {
                        &&& (#[trigger] r@[i].files@[k]).file_id < all_file_lengths(torrents@).len()
                        &&& r@[i].files@[k].read_start_position + r@[i].files@[k].read_length
                            <= all_file_lengths(torrents@)[r@[i].files@[k].file_id as int]
                    }
            },
{
    let mut entries: Vec<TorrentPieceEntry> = Vec::new();
    let mut base_file_id: usize = 0;
    let mut torrent_id: usize = 0;
    let ghost mut plans: Seq<Seq<Piece>> = Seq::empty();
    while torrent_id < torrents.len()
        invariant
            torrent_id <= torrents@.len(),
            entries@.len() == pieces_total(torrents@.subrange(0, torrent_id as int)),
            records_of_plans(entries@, torrents@, plans, torrent_id as int),
            forall|t: int| 0 <= t < torrents@.len() ==> (#[trigger] torrents@[t]).info.wf(),
            all_file_lengths(torrents@).len() <= usize::MAX,
            base_file_id == all_file_lengths(torrents@.subrange(0, torrent_id as int)).len(),
            forall|i: int|
                0 <= i < entries@.len() ==> {
                    &&& (#[trigger] entries@[i]).piece_id == i
                    &&& entries@[i].torrent_id < torrents@.len()
                    &&& entries@[i].total_choices@.len() == 0
                    &&& forall|k: int|
                        0 <= k < entries@[i].files@.len() ==> {
                            &&& (#[trigger] entries@[i].files@[k]).file_id < base_file_id
                            &&& entries@[i].files@[k].read_start_position + entries@[i].files@[k].read_length
                                <= all_file_lengths(torrents@.subrange(0, torrent_id as int))[entries@[i].files@[k].file_id as int]
                        }
                },
        decreases torrents.len() - torrent_id,
    {
        let torrent = &torrents[torrent_id];
        let ghost before = all_file_lengths(torrents@.subrange(0, torrent_id as int));
        let ghost after = all_file_lengths(torrents@.subrange(0, torrent_id + 1));
        let ghost lens = torrent.info.file_lengths();
        proof {
            assert(torrents@.subrange(0, torrent_id + 1).drop_last() =~= torrents@.subrange(0, torrent_id as int));
            assert(after == before + lens);
        }
        let pieces = Pieces::from_torrent(torrent);
        let ghost start_entries = entries@;
        let ghost first_id = entries@.len() as int;
        proof {
            assert(first_id == pieces_before(torrents@, torrent_id as int));
            assert(pieces_total(torrents@.subrange(0, torrent_id + 1)) == first_id + pieces@.len());
        }
        let file_count: usize = match &torrent.info.length {
            Some(_) => 1,
            None => match &torrent.info.files {
                Some(files) => files.len(),
                None => 0,
            },
        };
        assert(file_count == lens.len());
        proof {
            if after.len() > 0 {
                lemma_all_file_lengths_prefix(torrents@, torrent_id + 1, after.len() - 1);
            }
        }
        let mut p: usize = 0;
        while p < pieces.len()
            invariant
                p <= pieces@.len(),
                plan_ok(&torrent.info, pieces@),
                lens == torrent.info.file_lengths(),
                after == before + lens,
                base_file_id == before.len(),
                base_file_id + file_count <= usize::MAX,
                file_count == lens.len(),
                torrent_id < torrents@.len(),
                entries@.len() == first_id + p,
                first_id == pieces_before(torrents@, torrent_id as int),
                base_file_id == files_before(torrents@, torrent_id as int),
                records_of_plans(start_entries, torrents@, plans, torrent_id as int),
                forall|i: int| 0 <= i < first_id ==> #[trigger] entries@[i] == start_entries[i],
                forall|j: int|
                    0 <= j < p ==> record_matches(
                        #[trigger] entries@[first_id + j],
                        pieces@[j],
                        first_id + j,
                        torrent_id as int,
                        base_file_id as int,
                    ),
                forall|i: int|
                    0 <= i < entries@.len() ==> {
                        &&& (#[trigger] entries@[i]).piece_id == i
                        &&& entries@[i].torrent_id < torrents@.len()
                        &&& entries@[i].total_choices@.len() == 0
                        &&& forall|k: int|
                            0 <= k < entries@[i].files@.len() ==> {
                                &&& (#[trigger] entries@[i].files@[k]).file_id < base_file_id + file_count
                                &&& entries@[i].files@[k].read_start_position + entries@[i].files@[k].read_length
                                    <= after[entries@[i].files@[k].file_id as int]
                            }
                    },
            decreases pieces.len() - p,
        {
            let piece = &pieces[p];
            proof {
                assert(crate::pieces::piece_ok(lens, pieces@[p as int], p as int, torrent.info.pieces@[p as int]@));
            }
            let mut files: Vec<TorrentPieceFileEntry> = Vec::new();
            let mut k: usize = 0;
            while k < piece.files.len()
                invariant
                    k <= piece.files@.len(),
                    crate::pieces::segments_ok(lens, piece.files@),
                    after == before + lens,
                    base_file_id == before.len(),
                    base_file_id + file_count <= usize::MAX,
                    file_count == lens.len(),
                    files@.len() == k,
                    forall|j: int|
                        0 <= j < k ==> {
                            &&& (#[trigger] files@[j]).file_id == base_file_id + piece.files@[j].file_index
                            &&& files@[j].read_length == piece.files@[j].read_length
                            &&& files@[j].read_start_position == piece.files@[j].read_start_position
                        },
                    forall|j: int|
                        0 <= j < k ==> {
                            &&& (#[trigger] files@[j]).file_id < base_file_id + file_count
                            &&& files@[j].read_start_position + files@[j].read_length <= after[files@[j].file_id as int]
                        },
                decreases piece.files.len() - k,
            {
                let segment = piece.files[k];
                proof {
                    assert(segment_ok(lens, piece.files@[k as int]));
                    assert(after[base_file_id + segment.file_index] == lens[segment.file_index as int]);
                }
                files.push(TorrentPieceFileEntry {
                    read_length: segment.read_length,
                    read_start_position: segment.read_start_position,
                    file_id: segment.file_index + base_file_id,
                });
                k = k + 1;
            }
            let piece_id = entries.len();
            let ghost old_entries = entries@;
            entries.push(TorrentPieceEntry {
                piece_id,
                hash: crate::bencode::copy_bytes(&piece.hash),
                torrent_id,
                position: piece.position,
                files,
                length: piece.length,
                total_choices: Vec::new(),
            });
            proof {
                assert(record_matches(entries@[first_id + p], pieces@[p as int], first_id + p, torrent_id as int, base_file_id as int));
                assert forall|j: int| 0 <= j < p implies record_matches(
                    #[trigger] entries@[first_id + j],
                    pieces@[j],
                    first_id + j,
                    torrent_id as int,
                    base_file_id as int,
                ) by {
                    assert(entries@[first_id + j] == old_entries[first_id + j]);
                }
            }
            p = p + 1;
        }
        proof {
            let new_plans = plans.push(pieces@);
            assert forall|k: int, j: int|
                0 <= k < torrent_id + 1 && 0 <= j < new_plans[k].len() implies record_matches(
                    #[trigger] entries@[pieces_before(torrents@, k) + j],
                    #[trigger] new_plans[k][j],
                    pieces_before(torrents@, k) + j,
                    k,
                    files_before(torrents@, k),
                ) by {
                if k < torrent_id {
                    assert(new_plans[k] == plans[k]);
                    lemma_pieces_before_bound(torrents@, k, torrent_id as int, j);
                    assert(entries@[pieces_before(torrents@, k) + j] == start_entries[pieces_before(torrents@, k) + j]);
                } else {
                    assert(new_plans[k] == pieces@);
                }
            }
            plans = new_plans;
        }
        base_file_id = base_file_id + file_count;
        torrent_id = torrent_id + 1;
    }
    proof {
        assert(torrents@.subrange(0, torrents@.len() as int) =~= torrents@);
    }
    entries
}

// ---------------------------------------------------------------------------
// Export paths
// ---------------------------------------------------------------------------

pub open spec fn data_chars() -> Seq<char> {
    seq!['D', 'a', 't', 'a']
}

/// `<export_root>/<info-digest hex>/Data/<name>`.
pub open spec fn export_path_single(root: Seq<Seq<char>>, info_hash: Seq<u8>, name: Seq<char>) -> Seq<Seq<char>> {
    root + seq![ascii_chars(hex_bytes(info_hash)), data_chars(), name]
}

fn data_component() -> (r: String)
    ensures
        r@ == data_chars(),
{
    let s = String::from_str("Data");
    proof {
        reveal_strlit("Data");
        assert(s@ =~= data_chars());
    }
    s
}

/// The export path of the single file of a descriptor.
pub fn format_path_single(torrent: &Torrent, export_root: &Vec<String>) -> (r: Vec<String>)
    ensures
        path_view(r) == export_path_single(path_view(*export_root), torrent.info_hash@, torrent.info.name@),
{
    let mut path = copy_path(export_root);
    let ghost head = path_view(path);
    path.push(get_sha1_hexdigest(torrent.info_hash.as_slice()));
    path.push(data_component());
    path.push(torrent.info.name.clone());
    proof {
        assert(path_view(path) =~= export_path_single(
            path_view(*export_root),
            torrent.info_hash@,
            torrent.info.name@,
        ));
    }
    path
}

/// The export path of one file of a multi-file descriptor: the single-file path with
/// the file's path components after it.
pub fn format_path_multiple(file: &File, torrent: &Torrent, export_root: &Vec<String>) -> (r: Vec<String>)
    ensures
        path_view(r) == export_path_single(path_view(*export_root), torrent.info_hash@, torrent.info.name@)
            + path_view(file.path),
{
    let mut path = format_path_single(torrent, export_root);
    let ghost head = path_view(path);
    let mut i: usize = 0;
    while i < file.path.len()
        invariant
            i <= file.path@.len(),
            path@.len() == head.len() + i,
            forall|j: int| 0 <= j < head.len() ==> (#[trigger] path@[j])@ == head[j],
            forall|j: int| 0 <= j < i ==> (#[trigger] path@[head.len() + j])@ == file.path@[j]@,
        decreases file.path.len() - i,
    {
        path.push(file.path[i].clone());
        i = i + 1;
    }
    proof {
        let tail = path_view(file.path);
        assert forall|k: int| 0 <= k < path_view(path).len() implies path_view(path)[k] == (head + tail)[k] by {
            if k >= head.len() {
                let j = k - head.len();
                assert(path@[head.len() + j]@ == file.path@[j]@);
            }
        }
        assert(path_view(path) =~= head + tail);
    }
    path
}

/// Computes the export path of the files of a descriptor.
pub trait ExportPathFormatter {
    fn format_multiple_files(torrent_file: &File, torrent: &Torrent, export_root: &Vec<String>) -> (r: Vec<String>)
        ensures
            path_view(r) == export_path_single(path_view(*export_root), torrent.info_hash@, torrent.info.name@)
                + path_view(torrent_file.path),
    ;

    fn format_single_file(torrent: &Torrent, export_root: &Vec<String>) -> (r: Vec<String>)
        ensures
            path_view(r) == export_path_single(path_view(*export_root), torrent.info_hash@, torrent.info.name@),
    ;
}

/// Where a file record's paths go: its descriptor, its export path and its path inside
/// the descriptor.
pub struct FileTarget {
    pub torrent: int,
    pub export: Seq<Seq<char>>,
    pub relative: Seq<Seq<char>>,
}

/// The targets of the files of one descriptor, numbered `k`.
pub open spec fn targets_of(t: Torrent, k: int, root: Seq<Seq<char>>) -> Seq<FileTarget> {
    match t.info.length {
        Some(_) => seq![
            FileTarget {
                torrent: k,
                export: export_path_single(root, t.info_hash@, t.info.name@),
                relative: seq![t.info.name@],
            },
        ],
        None => match t.info.files {
            Some(fs) => Seq::new(
                fs@.len(),
                |i: int|
                    FileTarget {
                        torrent: k,
                        export: export_path_single(root, t.info_hash@, t.info.name@) + path_view(fs@[i].path),
                        relative: path_view(fs@[i].path),
                    },
            ),
            None => Seq::empty(),
        },
    }
}

/// The targets of the files of all descriptors, one after the other.
pub open spec fn file_targets(ts: Seq<Torrent>, root: Seq<Seq<char>>) -> Seq<FileTarget>
    decreases ts.len(),
{
    if ts.len() == 0 {
        Seq::empty()
    } else {
        file_targets(ts.drop_last(), root) + targets_of(ts.last(), ts.len() - 1, root)
    }
}

/// `<export_root>/<info-digest hex>/Data/<name>[/<file path>]`.
pub struct DefaultExportPathFormatter {}

impl ExportPathFormatter for DefaultExportPathFormatter {
    fn format_multiple_files(torrent_file: &File, torrent: &Torrent, export_root: &Vec<String>) -> (r: Vec<String>) {
        format_path_multiple(torrent_file, torrent, export_root)
    }

    fn format_single_file(torrent: &Torrent, export_root: &Vec<String>) -> (r: Vec<String>) {
        format_path_single(torrent, export_root)
    }
}

/// A record's descriptor and paths are those of `t`.
pub open spec fn target_matches(e: TorrentFileEntry, t: FileTarget, paths: Seq<Vec<String>>) -> bool {
    &&& e.torrent_id == t.torrent
    &&& e.export_target < paths.len()
    &&& e.relative_target < paths.len()
    &&& path_view(paths[e.export_target as int]) == t.export
    &&& path_view(paths[e.relative_target as int]) == t.relative
}

/// The file records of all descriptors, in order: their lengths, whether they are
/// padding, and the ids of their export path and of their path inside the descriptor.
pub fn build_raw_torrent_file_metadata<E: ExportPathFormatter>(
    torrents: &[Torrent],
    path_interner: &mut PathInterner,
    export_root: &Vec<String>,
) -> (r: Vec<TorrentFileEntry>)
    requires
        old(path_interner).wf(),
        forall|t: int| 0 <= t < torrents@.len() ==> (#[trigger] torrents@[t]).info.wf(),
    ensures
        final(path_interner).wf(),
        r@.len() == all_file_lengths(torrents@).len(),
        forall|i: int|
            0 <= i < r@.len() ==> {
                &&& (#[trigger] r@[i]).file_id == i
                &&& r@[i].torrent_id < torrents@.len()
                &&& r@[i].file_length == all_file_lengths(torrents@)[i]
                &&& r@[i].padding == all_file_padding(torrents@)[i]
                &&& r@[i].export_target < final(path_interner).vec@.len()
                &&& r@[i].relative_target < final(path_interner).vec@.len()
                &&& r@[i].searches is None
                &&& r@[i].torrent_id == file_targets(torrents@, path_view(*export_root))[i].torrent
                &&& path_view(final(path_interner).vec@[r@[i].export_target as int]) == file_targets(
                    torrents@,
                    path_view(*export_root),
                )[i].export
                &&& path_view(final(path_interner).vec@[r@[i].relative_target as int]) == file_targets(
                    torrents@,
                    path_view(*export_root),
                )[i].relative
            },
{
    let ghost root = path_view(*export_root);
    let mut entries: Vec<TorrentFileEntry> = Vec::new();
    let mut torrent_id: usize = 0;
    while torrent_id < torrents.len()
        invariant
            torrent_id <= torrents@.len(),
            forall|t: int| 0 <= t < torrents@.len() ==> (#[trigger] torrents@[t]).info.wf(),
            path_interner.wf(),
            entries@.len() == all_file_lengths(torrents@.subrange(0, torrent_id as int)).len(),
            entries@.len() == all_file_padding(torrents@.subrange(0, torrent_id as int)).len(),
            entries@.len() == file_targets(torrents@.subrange(0, torrent_id as int), root).len(),
            root == path_view(*export_root),
            forall|i: int|
                0 <= i < entries@.len() ==> target_matches(
                    #[trigger] entries@[i],
                    file_targets(torrents@.subrange(0, torrent_id as int), root)[i],
                    path_interner.vec@,
                ),
            forall|i: int|
                0 <= i < entries@.len() ==> {
                    &&& (#[trigger] entries@[i]).file_id == i
                    &&& entries@[i].torrent_id < torrents@.len()
                    &&& entries@[i].file_length == all_file_lengths(torrents@.subrange(0, torrent_id as int))[i]
                    &&& entries@[i].padding == all_file_padding(torrents@.subrange(0, torrent_id as int))[i]
                    &&& entries@[i].export_target < path_interner.vec@.len()
                    &&& entries@[i].relative_target < path_interner.vec@.len()
                    &&& entries@[i].searches is None
                },
        decreases torrents.len() - torrent_id,
    {
        let torrent = &torrents[torrent_id];
        let ghost before = all_file_lengths(torrents@.subrange(0, torrent_id as int));
        let ghost after = all_file_lengths(torrents@.subrange(0, torrent_id + 1));
        let ghost lens = torrent.info.file_lengths();
        let ghost pad_before = all_file_padding(torrents@.subrange(0, torrent_id as int));
        let ghost pad_after = all_file_padding(torrents@.subrange(0, torrent_id + 1));
        let ghost tg_before = file_targets(torrents@.subrange(0, torrent_id as int), root);
        let ghost tg_after = file_targets(torrents@.subrange(0, torrent_id + 1), root);
        let ghost local = targets_of(*torrent, torrent_id as int, root);
        let ghost interner_before = path_interner.vec@;
        proof {
            assert(torrents@.subrange(0, torrent_id + 1).drop_last() =~= torrents@.subrange(0, torrent_id as int));
            assert(after == before + lens);
            assert(tg_after == tg_before + local);
        }
        match &torrent.info.length {
            Some(length) => {
                let export_target = E::format_single_file(torrent, export_root);
                let mut relative_target: Vec<String> = Vec::new();
                relative_target.push(torrent.info.name.clone());
                let ghost relative_target_view = relative_target;
                let export_target_handle = path_interner.put(export_target);
                let relative_target_handle = path_interner.put(relative_target);
                let file_id = entries.len();
                entries.push(TorrentFileEntry {
                    file_id,
                    torrent_id,
                    file_length: *length,
                    export_target: export_target_handle,
                    relative_target: relative_target_handle,
                    padding: false,
                    searches: None,
                    processing_state: TorrentProcessState::new(torrent.info.pieces.len()),
                });
                proof {
                    assert(entries@.len() == after.len());
                    assert(pad_after == pad_before + seq![false]);
                    assert(path_view(relative_target_view) =~= seq![torrent.info.name@]);
                    assert forall|i: int| 0 <= i < entries@.len() implies target_matches(
                        #[trigger] entries@[i],
                        tg_after[i],
                        path_interner.vec@,
                    ) by {
                        if i < tg_before.len() {
                            assert(tg_after[i] == tg_before[i]);
                            assert(target_matches(entries@[i], tg_before[i], interner_before));
                        }
                    }
                    assert forall|i: int| 0 <= i < entries@.len() implies (#[trigger] entries@[i]).file_length == after[i]
                        && entries@[i].padding == pad_after[i] by {
                        if i < before.len() {
                            assert(after[i] == before[i]);
                            assert(pad_after[i] == pad_before[i]);
                        }
                    }
                }
            },
            None => match &torrent.info.files {
                Some(files) => {
                    let ghost start = entries@.len();
                    let ghost pads = files@.map_values(|f: File| f.spec_padding());
                    proof {
                        assert(pad_after == pad_before + pads);
                    }
                    let mut f: usize = 0;
                    while f < files.len()
                        invariant
                            f <= files@.len(),
                            lens == files@.map_values(|x: File| x.length),
                            after == before + lens,
                            start == before.len(),
                            start == pad_before.len(),
                            pads == files@.map_values(|x: File| x.spec_padding()),
                            pad_after == pad_before + pads,
                            entries@.len() == start + f,
                            torrent_id < torrents@.len(),
                            path_interner.wf(),
                            start == tg_before.len(),
                            tg_after == tg_before + local,
                            local == targets_of(*torrent, torrent_id as int, root),
                            torrent.info.length is None,
                            torrent.info.files == Some(*files),
                            root == path_view(*export_root),
                            forall|i: int|
                                0 <= i < entries@.len() ==> target_matches(
                                    #[trigger] entries@[i],
                                    tg_after[i],
                                    path_interner.vec@,
                                ),
                            forall|i: int|
                                0 <= i < entries@.len() ==> {
                                    &&& (#[trigger] entries@[i]).file_id == i
                                    &&& entries@[i].torrent_id < torrents@.len()
                                    &&& entries@[i].file_length == after[i]
                                    &&& entries@[i].padding == pad_after[i]
                                    &&& entries@[i].export_target < path_interner.vec@.len()
                                    &&& entries@[i].relative_target < path_interner.vec@.len()
                                    &&& entries@[i].searches is None
                                },
                        decreases files.len() - f,
                    {
                        let file = &files[f];
                        let export_target = E::format_multiple_files(file, torrent, export_root);
                        let relative_target = copy_path(&file.path);
                        let ghost interner_old = path_interner.vec@;
                        let export_target_handle = path_interner.put(export_target);
                        let relative_target_handle = path_interner.put(relative_target);
                        let file_id = entries.len();
                        let ghost entries_old = entries@;
                        entries.push(TorrentFileEntry {
                            file_id,
                            torrent_id,
                            file_length: file.length,
                            export_target: export_target_handle,
                            relative_target: relative_target_handle,
                            padding: file.padding(),
                            searches: None,
                            processing_state: TorrentProcessState::new(torrent.info.pieces.len()),
                        });
                        proof {
                            assert(local[f as int].export == export_path_single(root, torrent.info_hash@, torrent.info.name@)
                                + path_view(files@[f as int].path));
                            assert forall|i: int| 0 <= i < entries@.len() implies target_matches(
                                #[trigger] entries@[i],
                                tg_after[i],
                                path_interner.vec@,
                            ) by {
                                if i < entries_old.len() {
                                    assert(entries@[i] == entries_old[i]);
                                    assert(target_matches(entries_old[i], tg_after[i], interner_old));
                                }
                            }
                        }
                        f = f + 1;
                    }
                },
                None => {},
            },
        }
        torrent_id = torrent_id + 1;
    }
    proof {
        assert(torrents@.subrange(0, torrents@.len() as int) =~= torrents@);
    }
    entries
}

} // verus!

verus! {

// ---------------------------------------------------------------------------
// Search discovery
// ---------------------------------------------------------------------------

/// How well a candidate path fits a file: 0 where it ends with the export path, 1 where
/// it ends with the file's path in the descriptor, 2 where its last component is the
/// file's name, 3 otherwise.
pub open spec fn similarity(entry: Seq<Seq<char>>, relative: Seq<Seq<char>>, export: Seq<Seq<char>>) -> int {
    if ends_with(entry, export) {
        0
    } else if ends_with(entry, relative) {
        1
    } else if entry.len() > 0 && relative.len() > 0 && entry.last() == relative.last() {
        2
    } else {
        3
    }
}

pub fn find_file_similarity(entry: &Vec<String>, relative_target: &Vec<String>, export_target: &Vec<String>) -> (r: usize)
    ensures
        r == similarity(path_view(*entry), path_view(*relative_target), path_view(*export_target)),
{
    if path_ends_with(entry, export_target) {
        0
    } else if path_ends_with(entry, relative_target) {
        1
    } else if entry.len() > 0 && relative_target.len() > 0
        && entry[entry.len() - 1] == relative_target[relative_target.len() - 1] {
        2
    } else {
        3
    }
}

/// The catalog entry of `id`, if it has one.
pub open spec fn entry_at(entries: Seq<Option<PathCacheEntry>>, id: int) -> Option<PathCacheEntry> {
    if 0 <= id < entries.len() {
        entries[id]
    } else {
        None
    }
}

/// The ids below `n`, in ascending order, whose catalog entry has length `length`.
pub open spec fn candidates(entries: Seq<Option<PathCacheEntry>>, length: u64, n: int) -> Seq<usize>
    decreases n,
{
    if n <= 0 {
        Seq::empty()
    } else {
        let c = candidates(entries, length, n - 1);
        if entry_at(entries, n - 1) matches Some(e) && e.file_length == length {
            c.push((n - 1) as usize)
        } else {
            c
        }
    }
}

/// The ids of `ids` of rank `r`, in their order.
pub open spec fn with_rank(ids: Seq<usize>, rank: spec_fn(usize) -> int, r: int) -> Seq<usize>
    decreases ids.len(),
{
    if ids.len() == 0 {
        Seq::empty()
    } else {
        let w = with_rank(ids.drop_last(), rank, r);
        if rank(ids.last()) == r {
            w.push(ids.last())
        } else {
            w
        }
    }
}

/// The ids of rank below `r`, by rank, ties in their order.
pub open spec fn ranked_below(ids: Seq<usize>, rank: spec_fn(usize) -> int, r: int) -> Seq<usize>
    decreases r,
{
    if r <= 0 {
        Seq::empty()
    } else {
        ranked_below(ids, rank, r - 1) + with_rank(ids, rank, r - 1)
    }
}

/// Whether the catalog entry of `id` is the same object on disk as `e`.
pub open spec fn same_node_at(entries: Seq<Option<PathCacheEntry>>, id: int, e: PathCacheEntry) -> bool {
    match entry_at(entries, id) {
        Some(x) => x.device_node == e.device_node && x.index_node == e.index_node,
        None => false,
    }
}

/// Whether an id of `kept` is the same object on disk as `e`.
pub open spec fn node_seen(kept: Seq<usize>, entries: Seq<Option<PathCacheEntry>>, e: PathCacheEntry) -> bool {
    exists|k: int|
        0 <= k < kept.len() && #[trigger] same_node_at(entries, kept[k] as int, e)
}

/// `ids` in order, each kept only where no id kept before it is the same object on disk.
pub open spec fn dedup_nodes(ids: Seq<usize>, entries: Seq<Option<PathCacheEntry>>) -> Seq<usize>
    decreases ids.len(),
{
    if ids.len() == 0 {
        Seq::empty()
    } else {
        let d = dedup_nodes(ids.drop_last(), entries);
        match entry_at(entries, ids.last() as int) {
            Some(e) => if node_seen(d, entries, e) {
                d
            } else {
                d.push(ids.last())
            },
            None => d,
        }
    }
}

/// The rank of each path id for a file record.
pub open spec fn rank_for(f: &TorrentFileEntry, paths: Seq<Vec<String>>) -> spec_fn(usize) -> int {
    |id: usize|
        similarity(
            path_view(paths[id as int]),
            path_view(paths[f.relative_target as int]),
            path_view(paths[f.export_target as int]),
        )
}

/// The searches of a file record: the catalogued paths of its length, by rank, one
/// per object on disk; none where there is no such path.
pub open spec fn searches_for(f: &TorrentFileEntry, entries: Seq<Option<PathCacheEntry>>, paths: Seq<Vec<String>>) -> Option<Seq<usize>> {
    let kept = dedup_nodes(
        ranked_below(candidates(entries, f.file_length, entries.len() as int), rank_for(f, paths), 4),
        entries,
    );
    if kept.len() == 0 {
        None
    } else {
        Some(kept)
    }
}

fn find_searches(file: &TorrentFileEntry, disk_metadata: &FrozenPathCache, path_interner: &FrozenPathInterner) -> (r: Option<Vec<usize>>)
    requires
        disk_metadata.entries@.len() <= path_interner.vec@.len(),
        file.export_target < path_interner.vec@.len(),
        file.relative_target < path_interner.vec@.len(),
    ensures
        match r {
            Some(v) => searches_for(file, disk_metadata.entries@, path_interner.vec@) == Some(v@),
            None => searches_for(file, disk_metadata.entries@, path_interner.vec@) is None,
        },
{
    let ghost entries = disk_metadata.entries@;
    let ghost paths = path_interner.vec@;
    let ghost rank = rank_for(file, paths);
    let n = disk_metadata.entries.len();
    let mut handles: Vec<usize> = Vec::new();
    let mut id: usize = 0;
    while id < n
        invariant
            id <= n,
            n == entries.len(),
            entries == disk_metadata.entries@,
            handles@ == candidates(entries, file.file_length, id as int),
            forall|k: int| 0 <= k < handles@.len() ==> #[trigger] handles@[k] < id,
        decreases n - id,
    {
        match &disk_metadata.entries[id] {
            Some(entry) => {
                if entry.file_length == file.file_length {
                    handles.push(id);
                }
            },
            None => {},
        }
        id = id + 1;
    }
    let export_target = path_interner.get(file.export_target);
    let relative_target = path_interner.get(file.relative_target);
    let mut ranked: Vec<usize> = Vec::new();
    let mut r: usize = 0;
    while r < 4
        invariant
            r <= 4,
            n <= paths.len(),
            paths == path_interner.vec@,
            rank == rank_for(file, paths),
            *export_target == paths[file.export_target as int],
            *relative_target == paths[file.relative_target as int],
            forall|k: int| 0 <= k < handles@.len() ==> #[trigger] handles@[k] < n,
            ranked@ == ranked_below(handles@, rank, r as int),
        decreases 4 - r,
    {
        let mut j: usize = 0;
        let ghost base = ranked@;
        while j < handles.len()
            invariant
                j <= handles@.len(),
                r < 4,
                n <= paths.len(),
                paths == path_interner.vec@,
                rank == rank_for(file, paths),
                *export_target == paths[file.export_target as int],
                *relative_target == paths[file.relative_target as int],
                forall|k: int| 0 <= k < handles@.len() ==> #[trigger] handles@[k] < n,
                base == ranked_below(handles@, rank, r as int),
                ranked@ == base + with_rank(handles@.subrange(0, j as int), rank, r as int),
            decreases handles.len() - j,
        {
            let h = handles[j];
            let similarity = find_file_similarity(path_interner.get(h), relative_target, export_target);
            proof {
                assert(handles@.subrange(0, j + 1).drop_last() =~= handles@.subrange(0, j as int));
                assert(similarity == rank(h));
            }
            if similarity == r {
                ranked.push(h);
            }
            proof {
                assert(ranked@ =~= base + with_rank(handles@.subrange(0, j + 1), rank, r as int));
            }
            j = j + 1;
        }
        proof {
            assert(handles@.subrange(0, handles@.len() as int) =~= handles@);
        }
        r = r + 1;
    }
    let mut filtered: Vec<usize> = Vec::new();
    let mut j: usize = 0;
    while j < ranked.len()
        invariant
            j <= ranked@.len(),
            n == entries.len(),
            entries == disk_metadata.entries@,
            filtered@ == dedup_nodes(ranked@.subrange(0, j as int), entries),
        decreases ranked.len() - j,
    {
        let h = ranked[j];
        proof {
            assert(ranked@.subrange(0, j + 1).drop_last() =~= ranked@.subrange(0, j as int));
        }
        if h < n {
            match &disk_metadata.entries[h] {
                Some(entry) => {
                    let mut seen = false;
                    let mut k: usize = 0;
                    while k < filtered.len()
                        invariant
                            k <= filtered@.len(),
                            n == entries.len(),
                            entries == disk_metadata.entries@,
                            seen == exists|m: int| 0 <= m < k && #[trigger] same_node_at(entries, filtered@[m] as int, *entry),
                        decreases filtered.len() - k,
                    {
                        let added = filtered[k];
                        if added < n {
                            match &disk_metadata.entries[added] {
                                Some(added_entry) => {
                                    if added_entry.same_node(entry) {
                                        seen = true;
                                    }
                                },
                                None => {},
                            }
                        }
                        proof {
                            if same_node_at(entries, filtered@[k as int] as int, *entry) {
                                assert(0 <= k < k + 1);
                            }
                        }
                        k = k + 1;
                    }
                    if !seen {
                        filtered.push(h);
                    }
                },
                None => {},
            }
        }
        j = j + 1;
    }
    proof {
        assert(ranked@.subrange(0, ranked@.len() as int) =~= ranked@);
    }
    if filtered.len() > 0 {
        Some(filtered)
    } else {
        None
    }
}

/// Fills in the searches of every file record: the catalogued paths of its length,
/// ranked by how well they fit its expected paths, one per object on disk.
pub fn discover_and_apply_searches(
    torrent_file_metadata: &mut Vec<TorrentFileEntry>,
    disk_metadata: &FrozenPathCache,
    path_interner: &FrozenPathInterner,
)
    requires
        disk_metadata.entries@.len() <= path_interner.vec@.len(),
        forall|i: int|
            0 <= i < old(torrent_file_metadata)@.len() ==> (#[trigger] old(torrent_file_metadata)@[i]).export_target
                < path_interner.vec@.len() && old(torrent_file_metadata)@[i].relative_target < path_interner.vec@.len(),
    ensures
        final(torrent_file_metadata)@.len() == old(torrent_file_metadata)@.len(),
        forall|i: int|
            0 <= i < final(torrent_file_metadata)@.len() ==> {
                let f = #[trigger] final(torrent_file_metadata)@[i];
                let o = old(torrent_file_metadata)@[i];
                &&& f.file_id == o.file_id
                &&& f.torrent_id == o.torrent_id
                &&& f.file_length == o.file_length
                &&& f.export_target == o.export_target
                &&& f.relative_target == o.relative_target
                &&& f.padding == o.padding
                &&& match f.searches {
                    Some(v) => searches_for(&o, disk_metadata.entries@, path_interner.vec@) == Some(v@),
                    None => searches_for(&o, disk_metadata.entries@, path_interner.vec@) is None,
                }
            },
{
    let mut i: usize = 0;
    while i < torrent_file_metadata.len()
        invariant
            i <= torrent_file_metadata@.len(),
            torrent_file_metadata@.len() == old(torrent_file_metadata)@.len(),
            disk_metadata.entries@.len() <= path_interner.vec@.len(),
            forall|j: int|
                0 <= j < old(torrent_file_metadata)@.len() ==> (#[trigger] old(torrent_file_metadata)@[j]).export_target
                    < path_interner.vec@.len() && old(torrent_file_metadata)@[j].relative_target < path_interner.vec@.len(),
            forall|j: int| i <= j < torrent_file_metadata@.len() ==> #[trigger] torrent_file_metadata@[j] == old(torrent_file_metadata)@[j],
            forall|j: int|
                0 <= j < i ==> {
                    let f = #[trigger] torrent_file_metadata@[j];
                    let o = old(torrent_file_metadata)@[j];
                    &&& f.file_id == o.file_id
                    &&& f.torrent_id == o.torrent_id
                    &&& f.file_length == o.file_length
                    &&& f.export_target == o.export_target
                    &&& f.relative_target == o.relative_target
                    &&& f.padding == o.padding
                    &&& match f.searches {
                        Some(v) => searches_for(&o, disk_metadata.entries@, path_interner.vec@) == Some(v@),
                        None => searches_for(&o, disk_metadata.entries@, path_interner.vec@) is None,
                    }
                },
        decreases torrent_file_metadata.len() - i,
    {
        let found = find_searches(&torrent_file_metadata[i], disk_metadata, path_interner);
        match found {
            Some(searches) => {
                torrent_file_metadata[i].searches = Some(searches);
            },
            None => {
                torrent_file_metadata[i].searches = None;
            },
        }
        i = i + 1;
    }
}

// ---------------------------------------------------------------------------
// Choice counts
// ---------------------------------------------------------------------------

/// The number of candidates of a segment: one for padding, the searches of its file
/// otherwise, zero where it has none.
pub open spec fn segment_choices(f: TorrentFileEntry) -> int {
    if f.padding {
        1
    } else {
        match f.searches {
            Some(s) => s@.len() as int,
            None => 0,
        }
    }
}

/// The candidate counts of a piece, one per segment; empty where a segment has none.
pub open spec fn choices_for(segments: Seq<TorrentPieceFileEntry>, files: Seq<TorrentFileEntry>) -> Seq<usize> {
    let raw = segments.map_values(|s: TorrentPieceFileEntry| segment_choices(files[s.file_id as int]) as usize);
    if exists|k: int| 0 <= k < raw.len() && raw[k] == 0 {
        Seq::empty()
    } else {
        raw
    }
}

/// Sets the candidate counts of every piece.
pub fn calculate_total_choices_for_piece(
    torrent_file_metadata: &[TorrentFileEntry],
    torrent_piece_metadata: &mut Vec<TorrentPieceEntry>,
)
    requires
        forall|i: int, k: int|
            0 <= i < old(torrent_piece_metadata)@.len() && 0 <= k < old(torrent_piece_metadata)@[i].files@.len()
                ==> (#[trigger] old(torrent_piece_metadata)@[i].files@[k]).file_id < torrent_file_metadata@.len(),
    ensures
        final(torrent_piece_metadata)@.len() == old(torrent_piece_metadata)@.len(),
        forall|i: int|
            0 <= i < final(torrent_piece_metadata)@.len() ==> {
                let p = #[trigger] final(torrent_piece_metadata)@[i];
                let o = old(torrent_piece_metadata)@[i];
                &&& p.piece_id == o.piece_id
                &&& p.hash == o.hash
                &&& p.torrent_id == o.torrent_id
                &&& p.position == o.position
                &&& p.files == o.files
                &&& p.length == o.length
                &&& p.total_choices@ == choices_for(o.files@, torrent_file_metadata@)
            },
{
    let mut i: usize = 0;
    while i < torrent_piece_metadata.len()
        invariant
            i <= torrent_piece_metadata@.len(),
            torrent_piece_metadata@.len() == old(torrent_piece_metadata)@.len(),
            forall|a: int, k: int|
                0 <= a < old(torrent_piece_metadata)@.len() && 0 <= k < old(torrent_piece_metadata)@[a].files@.len()
                    ==> (#[trigger] old(torrent_piece_metadata)@[a].files@[k]).file_id < torrent_file_metadata@.len(),
            forall|j: int| i <= j < torrent_piece_metadata@.len() ==> #[trigger] torrent_piece_metadata@[j] == old(torrent_piece_metadata)@[j],
            forall|j: int|
                0 <= j < i ==> {
                    let p = #[trigger] torrent_piece_metadata@[j];
                    let o = old(torrent_piece_metadata)@[j];
                    &&& p.piece_id == o.piece_id
                    &&& p.hash == o.hash
                    &&& p.torrent_id == o.torrent_id
                    &&& p.position == o.position
                    &&& p.files == o.files
                    &&& p.length == o.length
                    &&& p.total_choices@ == choices_for(o.files@, torrent_file_metadata@)
                },
        decreases torrent_piece_metadata.len() - i,
    {
        let ghost segs = torrent_piece_metadata@[i as int].files@;
        let ghost raw = segs.map_values(
            |s: TorrentPieceFileEntry| segment_choices(torrent_file_metadata@[s.file_id as int]) as usize,
        );
        let mut choices: Vec<usize> = Vec::new();
        let mut any_zero = false;
        let mut k: usize = 0;
        while k < torrent_piece_metadata[i].files.len()
            invariant
                i < torrent_piece_metadata@.len(),
                torrent_piece_metadata@[i as int] == old(torrent_piece_metadata)@[i as int],
                segs == torrent_piece_metadata@[i as int].files@,
                raw == segs.map_values(
                    |s: TorrentPieceFileEntry| segment_choices(torrent_file_metadata@[s.file_id as int]) as usize,
                ),
                k <= segs.len(),
                forall|m: int| 0 <= m < segs.len() ==> (#[trigger] segs[m]).file_id < torrent_file_metadata@.len(),
                choices@ == raw.subrange(0, k as int),
                any_zero == exists|m: int| 0 <= m < k && raw[m] == 0,
            decreases segs.len() - k,
        {
            let file = &torrent_file_metadata[torrent_piece_metadata[i].files[k].file_id];
            let count: usize = if file.padding {
                1
            } else {
                match &file.searches {
                    Some(searches) => searches.len(),
                    None => 0,
                }
            };
            proof {
                assert(segs[k as int] == torrent_piece_metadata@[i as int].files@[k as int]);
                assert(count == raw[k as int]);
            }
            if count == 0 {
                any_zero = true;
            }
            choices.push(count);
            proof {
                assert(choices@ =~= raw.subrange(0, k + 1));
            }
            k = k + 1;
        }
        if any_zero {
            choices.clear();
        }
        proof {
            assert(raw.subrange(0, segs.len() as int) =~= raw);
            if any_zero {
                assert(choices@ =~= Seq::<usize>::empty());
            }
        }
        torrent_piece_metadata[i].total_choices = choices;
        i = i + 1;
    }
}

} // verus!

verus! {

/// Hard links do not change what is searched. Of the candidate paths, the searches keep
/// a path of every object on disk among them, never two paths of one object, and only
/// candidates: one search per object on disk, however many hard links it has.
pub proof fn lemma_dedup_nodes(ids: Seq<usize>, entries: Seq<Option<PathCacheEntry>>)
    ensures
        forall|i: int|
            0 <= i < ids.len() && (#[trigger] entry_at(entries, ids[i] as int)) is Some ==> node_seen(
                dedup_nodes(ids, entries),
                entries,
                entry_at(entries, ids[i] as int)->0,
            ),
        forall|i: int, j: int|
            0 <= i < j < dedup_nodes(ids, entries).len() && (#[trigger] entry_at(
                entries,
                dedup_nodes(ids, entries)[i] as int,
            )) is Some ==> !same_node_at(
                entries,
                #[trigger] dedup_nodes(ids, entries)[j] as int,
                entry_at(entries, dedup_nodes(ids, entries)[i] as int)->0,
            ),
        forall|i: int|
            0 <= i < dedup_nodes(ids, entries).len() ==> ids.contains(#[trigger] dedup_nodes(ids, entries)[i]),
    decreases ids.len(),
{
    if ids.len() > 0 {
        let s = ids.drop_last();
        let x = ids.last();
        lemma_dedup_nodes(s, entries);
        let d = dedup_nodes(s, entries);
        let r = dedup_nodes(ids, entries);
        assert(r == d || r == d.push(x));
        assert forall|i: int|
            0 <= i < ids.len() && (#[trigger] entry_at(entries, ids[i] as int)) is Some implies node_seen(
                r,
                entries,
                entry_at(entries, ids[i] as int)->0,
            ) by {
            if let Some(e) = entry_at(entries, ids[i] as int) {
                if i < ids.len() - 1 {
                    assert(ids[i] == s[i]);
                    assert(node_seen(d, entries, e));
                    let k = choose|k: int| 0 <= k < d.len() && #[trigger] same_node_at(entries, d[k] as int, e);
                    assert(r[k] == d[k]);
                    assert(same_node_at(entries, r[k] as int, e));
                } else {
                    if !node_seen(d, entries, e) {
                        assert(r == d.push(x));
                        assert(same_node_at(entries, r[d.len() as int] as int, e));
                    }
                }
            }
        }
        assert forall|i: int| 0 <= i < r.len() implies ids.contains(#[trigger] r[i]) by {
            if i < d.len() {
                assert(s.contains(d[i]));
                let j = choose|j: int| 0 <= j < s.len() && s[j] == d[i];
                assert(ids[j] == s[j]);
            } else {
                assert(ids[ids.len() - 1] == x);
            }
        }
        assert forall|i: int, j: int|
            0 <= i < j < r.len() && (#[trigger] entry_at(entries, r[i] as int)) is Some implies !same_node_at(
                entries,
                #[trigger] r[j] as int,
                entry_at(entries, r[i] as int)->0,
            ) by {
            if j < d.len() {
                assert(r[i] == d[i] && r[j] == d[j]);
            } else if let Some(y) = entry_at(entries, r[i] as int) {
                if let Some(e) = entry_at(entries, x as int) {
                    assert(!node_seen(d, entries, e));
                    assert(r[i] == d[i]);
                    if same_node_at(entries, r[j] as int, y) {
                        assert(same_node_at(entries, d[i] as int, e));
                    }
                }
            }
        }
    }
}

} // verus!

verus! {

/// The number of pieces of all descriptors.
pub open spec fn pieces_total(ts: Seq<Torrent>) -> int
    decreases ts.len(),
{
    if ts.len() == 0 {
        0
    } else {
        pieces_total(ts.drop_last()) + ts.last().info.pieces@.len()
    }
}

/// The counters of a whole run: every piece of every descriptor, none counted yet.
pub fn build_global_torrent_state(torrents: &[Torrent]) -> (r: TorrentProcessState)
    requires
        pieces_total(torrents@) <= usize::MAX,
    ensures
        r.total_pieces == pieces_total(torrents@),
        r.success_pieces == 0 && r.failed_pieces == 0 && r.fault_pieces == 0,
        r.writable_pieces == 0 && r.ignored_pieces == 0,
{
    let mut total_pieces: usize = 0;
    let mut i: usize = 0;
    while i < torrents.len()
        invariant
            i <= torrents@.len(),
            pieces_total(torrents@) <= usize::MAX,
            total_pieces == pieces_total(torrents@.subrange(0, i as int)),
        decreases torrents.len() - i,
    {
        proof {
            assert(torrents@.subrange(0, i + 1).drop_last() =~= torrents@.subrange(0, i as int));
            lemma_pieces_total_prefix(torrents@, i + 1);
        }
        total_pieces = total_pieces + torrents[i].info.pieces.len();
        i = i + 1;
    }
    proof {
        assert(torrents@.subrange(0, torrents@.len() as int) =~= torrents@);
    }
    TorrentProcessState::new(total_pieces)
}

/// A piece of a descriptor before `t` is numbered below the pieces of `t`.
proof fn lemma_pieces_before_bound(ts: Seq<Torrent>, k: int, t: int, j: int)
    requires
        0 <= k < t <= ts.len(),
        0 <= j < ts[k].info.pieces@.len(),
    ensures
        0 <= pieces_before(ts, k) + j < pieces_before(ts, t),
    decreases t - k,
{
    lemma_pieces_total_nonneg(ts.subrange(0, k));
    assert(ts.subrange(0, k + 1).drop_last() =~= ts.subrange(0, k));
    if k + 1 < t {
        lemma_pieces_before_monotone(ts, k + 1, t);
    }
}

proof fn lemma_pieces_before_monotone(ts: Seq<Torrent>, k: int, t: int)
    requires
        0 <= k <= t <= ts.len(),
    ensures
        pieces_before(ts, k) <= pieces_before(ts, t),
    decreases t - k,
{
    if k < t {
        lemma_pieces_before_monotone(ts, k, t - 1);
        assert(ts.subrange(0, t).drop_last() =~= ts.subrange(0, t - 1));
    }
}

proof fn lemma_pieces_total_nonneg(ts: Seq<Torrent>)
    ensures
        pieces_total(ts) >= 0,
    decreases ts.len(),
{
    if ts.len() > 0 {
        lemma_pieces_total_nonneg(ts.drop_last());
    }
}

proof fn lemma_pieces_total_prefix(ts: Seq<Torrent>, k: int)
    requires
        0 <= k <= ts.len(),
    ensures
        pieces_total(ts.subrange(0, k)) <= pieces_total(ts),
    decreases ts.len() - k,
{
    if k < ts.len() {
        lemma_pieces_total_prefix(ts, k + 1);
        assert(ts.subrange(0, k + 1).drop_last() =~= ts.subrange(0, k));
    } else {
        assert(ts.subrange(0, k) =~= ts);
    }
}

} // verus!

verus! {

// ---------------------------------------------------------------------------
// Run bookkeeping
// ---------------------------------------------------------------------------

/// What became of one piece.
#[derive(Debug, Clone, Copy, PartialEq, Eq)]
pub enum PieceOutcome {
    /// Found on disk; `written` where some of its bytes had to be written.
    Solved { written: bool },
    /// No combination of candidates matched.
    Failed,
    /// Reading or writing met an error.
    Faulted,
}

/// Counts one piece outcome: a solved piece as a success and as written or ignored, a
/// failed or faulted piece as such. Counters already at their largest stay there.
pub fn record_outcome(state: &mut TorrentProcessState, outcome: PieceOutcome)
    ensures
        final(state).total_pieces == old(state).total_pieces,
        final(state).success_pieces == old(state).success_pieces + if outcome is Solved && old(state).success_pieces
            < usize::MAX { 1int } else { 0int },
        final(state).writable_pieces == old(state).writable_pieces + if outcome == (PieceOutcome::Solved { written: true })
            && old(state).writable_pieces < usize::MAX { 1int } else { 0int },
        final(state).ignored_pieces == old(state).ignored_pieces + if outcome == (PieceOutcome::Solved { written: false })
            && old(state).ignored_pieces < usize::MAX { 1int } else { 0int },
        final(state).failed_pieces == old(state).failed_pieces + if outcome is Failed && old(state).failed_pieces
            < usize::MAX { 1int } else { 0int },
        final(state).fault_pieces == old(state).fault_pieces + if outcome is Faulted && old(state).fault_pieces
            < usize::MAX { 1int } else { 0int },
{
    match outcome {
        PieceOutcome::Solved { written } => {
            if state.success_pieces < usize::MAX {
                state.success_pieces = state.success_pieces + 1;
            }
            if written {
                if state.writable_pieces < usize::MAX {
                    state.writable_pieces = state.writable_pieces + 1;
                }
            } else if state.ignored_pieces < usize::MAX {
                state.ignored_pieces = state.ignored_pieces + 1;
            }
        },
        PieceOutcome::Failed => {
            if state.failed_pieces < usize::MAX {
                state.failed_pieces = state.failed_pieces + 1;
            }
        },
        PieceOutcome::Faulted => {
            if state.fault_pieces < usize::MAX {
                state.fault_pieces = state.fault_pieces + 1;
            }
        },
    }
}

/// The descriptors with an info-digest that no descriptor before them has, in order.
pub open spec fn unique_by_digest(ts: Seq<Torrent>) -> Seq<Torrent>
    decreases ts.len(),
{
    if ts.len() == 0 {
        Seq::empty()
    } else {
        let d = unique_by_digest(ts.drop_last());
        if exists|k: int| 0 <= k < d.len() && (#[trigger] d[k]).info_hash@ == ts.last().info_hash@ {
            d
        } else {
            d.push(ts.last())
        }
    }
}

/// Keeps the first descriptor of each info-digest, in order.
pub fn deduplicate_torrents(torrents: Vec<Torrent>) -> (r: Vec<Torrent>)
    ensures
        r@ == unique_by_digest(torrents@),
{
    let ghost all = torrents@;
    let mut rest = torrents;
    let mut kept: Vec<Torrent> = Vec::new();
    let ghost mut i: int = 0;
    while rest.len() > 0
        invariant
            0 <= i <= all.len(),
            rest@ == all.subrange(i, all.len() as int),
            kept@ == unique_by_digest(all.subrange(0, i)),
        decreases rest.len(),
    {
        let torrent = rest.remove(0);
        proof {
            assert(torrent == all[i]);
            assert(all.subrange(0, i + 1).drop_last() =~= all.subrange(0, i));
            assert(rest@ =~= all.subrange(i + 1, all.len() as int));
        }
        let mut seen = false;
        let mut k: usize = 0;
        while k < kept.len()
            invariant
                k <= kept@.len(),
                seen == exists|m: int| 0 <= m < k && (#[trigger] kept@[m]).info_hash@ == torrent.info_hash@,
            decreases kept.len() - k,
        {
            if crate::bencode::bytes_equal(kept[k].info_hash.as_slice(), torrent.info_hash.as_slice()) {
                seen = true;
            }
            k = k + 1;
        }
        if !seen {
            kept.push(torrent);
        }
        proof {
            i = i + 1;
        }
    }
    proof {
        assert(all.subrange(0, i) =~= all);
    }
    kept
}

} // verus!

verus! {

/// The order in which pieces are taken up: every piece id once, the pieces with the
/// most segments first.
pub fn pending_order(pieces: &Vec<TorrentPieceEntry>) -> (r: Vec<usize>)
    ensures
        r@.len() == pieces@.len(),
        forall|i: int| 0 <= i < r@.len() ==> #[trigger] r@[i] < pieces@.len(),
        forall|i: int, j: int| 0 <= i < j < r@.len() ==> #[trigger] r@[i] != #[trigger] r@[j],
        forall|i: int|
            0 <= i < r@.len() - 1 ==> pieces@[#[trigger] r@[i] as int].files@.len() >= pieces@[r@[i + 1] as int].files@.len(),
{
    let n = pieces.len();
    let mut order: Vec<usize> = Vec::new();
    let mut id: usize = 0;
    while id < n
        invariant
            id <= n,
            n == pieces@.len(),
            order@.len() == id,
            forall|i: int| 0 <= i < order@.len() ==> #[trigger] order@[i] < id,
            forall|i: int, j: int| 0 <= i < j < order@.len() ==> #[trigger] order@[i] != #[trigger] order@[j],
            forall|i: int|
                0 <= i < order@.len() - 1 ==> pieces@[#[trigger] order@[i] as int].files@.len()
                    >= pieces@[order@[i + 1] as int].files@.len(),
        decreases n - id,
    {
        let count = pieces[id].files.len();
        let mut p: usize = 0;
        while p < order.len() && pieces[order[p]].files.len() >= count
            invariant
                p <= order@.len(),
                id < n,
                n == pieces@.len(),
                forall|i: int| 0 <= i < order@.len() ==> #[trigger] order@[i] < id,
                count == pieces@[id as int].files@.len(),
                forall|i: int| 0 <= i < p ==> pieces@[#[trigger] order@[i] as int].files@.len() >= count,
            decreases order.len() - p,
        {
            p = p + 1;
        }
        let ghost before = order@;
        proof {
            before.insert_ensures(p as int, id);
        }
        order.insert(p, id);
        proof {
            assert forall|i: int| 0 <= i < order@.len() - 1 implies pieces@[#[trigger] order@[i] as int].files@.len()
                >= pieces@[order@[i + 1] as int].files@.len() by {
                if i + 1 < p {
                    assert(order@[i] == before[i] && order@[i + 1] == before[i + 1]);
                } else if i + 1 == p {
                    assert(order@[i] == before[i]);
                } else if i == p {
                    assert(order@[i + 1] == before[i]);
                    if p > 0 {
                        assert(pieces@[before[p - 1] as int].files@.len() >= pieces@[before[p as int] as int].files@.len());
                    }
                } else {
                    assert(order@[i] == before[i - 1] && order@[i + 1] == before[i]);
                }
            }
            assert forall|i: int, j: int| 0 <= i < j < order@.len() implies #[trigger] order@[i] != #[trigger] order@[j] by {
                let bi = if i < p { i } else if i == p { -1 } else { i - 1 };
                let bj = if j < p { j } else if j == p { -1 } else { j - 1 };
                if bi >= 0 {
                    assert(order@[i] == before[bi]);
                }
                if bj >= 0 {
                    assert(order@[j] == before[bj]);
                }
            }
            assert forall|i: int| 0 <= i < order@.len() implies #[trigger] order@[i] < id + 1 by {
                if i < p {
                    assert(order@[i] == before[i]);
                } else if i > p {
                    assert(order@[i] == before[i - 1]);
                }
            }
        }
        id = id + 1;
    }
    order
}

} // verus!
