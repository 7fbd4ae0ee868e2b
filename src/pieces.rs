use vstd::prelude::*;
use vstd::arithmetic::div_mod::{lemma_fundamental_div_mod, lemma_mod_bound};
use crate::bencode::copy_bytes;
use crate::torrent::{File, Info, Torrent, files_total, pieces_for};

verus! {

/// One segment of a piece: `read_length` bytes of file `file_index` from
/// `read_start_position` on.
#[derive(Clone, Copy, PartialEq, Eq, Debug)]
pub struct PieceFile {
    pub read_length: u64,
    pub read_start_position: u64,
    pub file_index: usize,
    pub file_length: u64,
}

#[derive(PartialEq, Eq, Debug)]
pub struct Piece {
    pub position: usize,
    pub files: Vec<PieceFile>,
    pub hash: Vec<u8>,
    pub length: u64,
}

impl Info {
    /// The lengths of the files in declaration order; one file for a single-file
    /// descriptor.
    pub open spec fn file_lengths(&self) -> Seq<u64> {
        match self.length {
            Some(l) => seq![l],
            None => match self.files {
                Some(fs) => fs@.map_values(|f: File| f.length),
                None => Seq::empty(),
            },
        }
    }
}

/// The sum of the first `k` lengths: where file `k` starts in the content.
pub open spec fn prefix_sum(lens: Seq<u64>, k: int) -> int
    decreases k,
{
    if k <= 0 {
        0
    } else {
        prefix_sum(lens, k - 1) + lens[k - 1]
    }
}

/// Where a segment starts in the content, the files laid out in order.
pub open spec fn global_start(lens: Seq<u64>, s: PieceFile) -> int {
    prefix_sum(lens, s.file_index as int) + s.read_start_position
}

pub open spec fn segment_ok(lens: Seq<u64>, s: PieceFile) -> bool {
    &&& s.file_index < lens.len()
    &&& s.file_length == lens[s.file_index as int]
    &&& s.read_start_position + s.read_length <= s.file_length
}

pub open spec fn segments_total(segs: Seq<PieceFile>) -> int
    decreases segs.len(),
{
    if segs.len() == 0 {
        0
    } else {
        segments_total(segs.drop_last()) + segs.last().read_length
    }
}

/// Segments inside their files, each one starting where the one before it ends.
pub open spec fn segments_ok(lens: Seq<u64>, segs: Seq<PieceFile>) -> bool {
    &&& forall|k: int| 0 <= k < segs.len() ==> segment_ok(lens, #[trigger] segs[k])
    &&& forall|k: int|
        0 <= k < segs.len() - 1 ==> global_start(lens, #[trigger] segs[k + 1]) == global_start(
            lens,
            segs[k],
        ) + segs[k].read_length
}

/// Where a piece starts in the content.
pub open spec fn piece_start(lens: Seq<u64>, p: Piece) -> int {
    global_start(lens, p.files@[0])
}

pub open spec fn piece_ok(lens: Seq<u64>, p: Piece, i: int, hash: Seq<u8>) -> bool {
    &&& p.position == i
    &&& p.hash@ == hash
    &&& p.files@.len() > 0
    &&& p.length == segments_total(p.files@)
    &&& segments_ok(lens, p.files@)
}

/// Where a segment stops in its file.
pub open spec fn seg_end(s: PieceFile) -> int {
    s.read_start_position + s.read_length
}

/// A segment that reaches the end of its file.
pub open spec fn runs_to_end(s: PieceFile) -> bool {
    seg_end(s) == s.file_length
}

/// `t` goes on where `s` stopped: at the start of the next file once `s` has reached its
/// file's end, in the same file otherwise.
pub open spec fn follows(s: PieceFile, t: PieceFile) -> bool {
    if runs_to_end(s) {
        t.file_index == s.file_index + 1 && t.read_start_position == 0
    } else {
        t.file_index == s.file_index && t.read_start_position == seg_end(s)
    }
}

/// One segment per file that a piece passes through: every segment but the last runs to
/// its file's end and the next one starts the next file. The last segment is empty only
/// in a piece shorter than `pl`, and such a piece ends in the last of the `n` files.
pub open spec fn piece_walk_ok(p: Piece, pl: int, n: int) -> bool {
    &&& forall|k: int|
        0 <= k < p.files@.len() - 1 ==> runs_to_end(#[trigger] p.files@[k]) && follows(p.files@[k], p.files@[k + 1])
    &&& p.files@.len() > 0 ==> (p.files@.last().read_length > 0 || p.length < pl)
    &&& p.files@.len() > 0 && p.length < pl ==> p.files@.last().file_index == n - 1
}

/// The pieces walk the files in order: the first from the start of the first file, each
/// going on where the one before it stopped.
pub open spec fn walk_ok(info: &Info, pieces: Seq<Piece>) -> bool {
    let n = info.file_lengths().len() as int;
    &&& pieces.len() > 0 ==> pieces[0].files@[0].file_index == 0 && pieces[0].files@[0].read_start_position == 0
    &&& forall|i: int| 0 <= i < pieces.len() ==> piece_walk_ok(#[trigger] pieces[i], info.piece_length as int, n)
    &&& forall|i: int| 0 <= i < pieces.len() - 1 ==> follows((#[trigger] pieces[i]).files@.last(), pieces[i + 1].files@[0])
}

/// Where the walk stands after segment `s`: file `fi`, with `rem` bytes of it left.
pub open spec fn cursor_after(s: PieceFile, fi: int, rem: int, lens: Seq<u64>) -> bool {
    if runs_to_end(s) {
        fi == s.file_index + 1 && (fi < lens.len() ==> rem == lens[fi])
    } else {
        fi == s.file_index && fi < lens.len() && rem == lens[fi] - seg_end(s)
    }
}

/// The read plan of a descriptor: one piece per digest, the pieces covering the content
/// in order from its first byte to its last, every piece but the last `piece_length`
/// bytes long, each piece made of consecutive segments of the files.
pub open spec fn plan_ok(info: &Info, pieces: Seq<Piece>) -> bool {
    let lens = info.file_lengths();
    let n = pieces.len();
    &&& n == info.pieces@.len()
    &&& forall|i: int| 0 <= i < n ==> piece_ok(lens, #[trigger] pieces[i], i, info.pieces@[i]@)
    &&& n > 0 ==> piece_start(lens, pieces[0]) == 0
    &&& forall|i: int|
        0 <= i < n - 1 ==> (#[trigger] pieces[i]).length == info.piece_length && piece_start(
            lens,
            pieces[i + 1],
        ) == piece_start(lens, pieces[i]) + pieces[i].length
    &&& n > 0 ==> piece_start(lens, pieces[n - 1]) + pieces[n - 1].length == info.total_length()
    &&& n > 0 ==> pieces[n - 1].length <= info.piece_length
    &&& walk_ok(info, pieces)
}

proof fn lemma_files_total_prefix(fs: Seq<File>)
    ensures
        files_total(fs) == prefix_sum(fs.map_values(|f: File| f.length), fs.len() as int),
    decreases fs.len(),
{
    if fs.len() > 0 {
        lemma_files_total_prefix(fs.drop_last());
        lemma_prefix_sum_prefix(fs.map_values(|f: File| f.length), fs.drop_last().map_values(|f: File| f.length), fs.len() - 1);
    }
}

proof fn lemma_prefix_sum_prefix(a: Seq<u64>, b: Seq<u64>, k: int)
    requires
        0 <= k <= a.len(),
        k <= b.len(),
        forall|i: int| 0 <= i < k ==> a[i] == b[i],
    ensures
        prefix_sum(a, k) == prefix_sum(b, k),
    decreases k,
{
    if k > 0 {
        lemma_prefix_sum_prefix(a, b, k - 1);
    }
}

proof fn lemma_prefix_sum_monotone(lens: Seq<u64>, j: int, k: int)
    requires
        0 <= j <= k <= lens.len(),
    ensures
        prefix_sum(lens, j) <= prefix_sum(lens, k),
        prefix_sum(lens, j) >= 0,
    decreases k,
{
    if j < k {
        lemma_prefix_sum_monotone(lens, j, k - 1);
    } else if k > 0 {
        lemma_prefix_sum_monotone(lens, k - 1, k - 1);
    }
}

proof fn lemma_segments_total_push(segs: Seq<PieceFile>, s: PieceFile)
    ensures
        segments_total(segs.push(s)) == segments_total(segs) + s.read_length,
{
    assert(segs.push(s).drop_last() =~= segs);
}

proof fn lemma_piece_bounds(total: int, pl: int, j: int)
    requires
        pl > 0,
        total >= 0,
        0 <= j,
    ensures
        j < pieces_for(total, pl) ==> j * pl < total,
        pieces_for(total, pl) * pl >= total,
        (j + 1) * pl == j * pl + pl,
        j * pl >= 0,
{
    lemma_fundamental_div_mod(total, pl);
    lemma_mod_bound(total, pl);
    let q = total / pl;
    let r = total % pl;
    assert(total == pl * q + r);
    assert(q >= 0) by (nonlinear_arith)
        requires
            total == pl * q + r,
            0 <= r < pl,
            total >= 0,
    ;
    if j < pieces_for(total, pl) {
        if r == 0 {
            assert(j * pl < total) by (nonlinear_arith)
                requires
                    j <= q - 1,
                    pl > 0,
                    total == pl * q,
            ;
        } else {
            assert(j * pl < total) by (nonlinear_arith)
                requires
                    j <= q,
                    pl > 0,
                    total == pl * q + r,
                    r > 0,
            ;
        }
    }
    assert(pieces_for(total, pl) * pl >= total) by (nonlinear_arith)
        requires
            pieces_for(total, pl) >= q,
            r == 0 ==> pieces_for(total, pl) == q,
            r != 0 ==> pieces_for(total, pl) == q + 1,
            total == pl * q + r,
            0 <= r < pl,
    ;
    assert((j + 1) * pl == j * pl + pl) by (nonlinear_arith);
    assert(j * pl >= 0) by (nonlinear_arith)
        requires
            j >= 0,
            pl > 0,
    ;
}

pub struct Pieces;

impl Pieces {
    /// The read plan of a descriptor.
    pub fn from_torrent(torrent: &Torrent) -> (r: Vec<Piece>)
        requires
            torrent.info.wf(),
        ensures
            plan_ok(&torrent.info, r@),
    {
        Pieces::construct_pieces(torrent)
    }

    fn construct_pieces(torrent: &Torrent) -> (r: Vec<Piece>)
        requires
            torrent.info.wf(),
        ensures
            plan_ok(&torrent.info, r@),
    {
        if torrent.info.length.is_some() {
            Pieces::construct_pieces_single_file(torrent)
        } else {
            Pieces::construct_pieces_multiple_file(torrent)
        }
    }

    fn construct_pieces_multiple_file(torrent: &Torrent) -> (r: Vec<Piece>)
        requires
            torrent.info.wf(),
            torrent.info.files is Some,
        ensures
            plan_ok(&torrent.info, r@),
    {
        let info = &torrent.info;
        let piece_length = info.piece_length;
        let files = match &info.files {
            Some(files) => files,
            None => {
                return Vec::new();
            },
        };
        let ghost lens = info.file_lengths();
        let ghost total = info.total_length();
        let ghost pl = piece_length as int;
        let ghost count = info.pieces@.len() as int;
        proof {
            lemma_files_total_prefix(files@);
            assert(lens =~= files@.map_values(|f: File| f.length));
            lemma_prefix_sum_monotone(lens, 0, lens.len() as int);
        }
        let file_count = files.len();
        let mut file_index: usize = 0;
        let mut file_remaining_length: u64 = files[0].length;
        let ghost mut consumed: int = 0;
        let mut pieces: Vec<Piece> = Vec::new();
        let mut h: usize = 0;
        while h < info.pieces.len()
            invariant
                info == &torrent.info,
                info.wf(),
                info.files == Some(*files),
                lens == info.file_lengths(),
                lens.len() == file_count,
                file_count > 0,
                total == info.total_length(),
                total == prefix_sum(lens, file_count as int),
                total >= 0,
                pl == piece_length,
                pl == info.piece_length,
                count == info.pieces@.len(),
                0 <= h <= count,
                pieces@.len() == h,
                file_index <= file_count,
                file_index < file_count ==> file_remaining_length <= lens[file_index as int],
                consumed == if file_index < file_count {
                    prefix_sum(lens, file_index as int) + lens[file_index as int] - file_remaining_length
                } else {
                    total
                },
                consumed == if h * pl <= total { h * pl } else { total },
                forall|i: int| 0 <= i < h ==> piece_ok(lens, #[trigger] pieces@[i], i, info.pieces@[i]@),
                h > 0 ==> piece_start(lens, pieces@[0]) == 0,
                forall|i: int|
                    0 <= i < h - 1 ==> (#[trigger] pieces@[i]).length == pl && piece_start(
                        lens,
                        pieces@[i + 1],
                    ) == piece_start(lens, pieces@[i]) + pieces@[i].length,
                h > 0 ==> piece_start(lens, pieces@[h - 1]) + pieces@[h - 1].length == consumed,
                h > 0 ==> pieces@[h - 1].length <= pl,
                h > 0 && h < count ==> pieces@[h - 1].length == pl,
                forall|i: int| 0 <= i < h ==> piece_walk_ok(#[trigger] pieces@[i], pl, file_count as int),
                forall|i: int| 0 <= i < h - 1 ==> follows((#[trigger] pieces@[i]).files@.last(), pieces@[i + 1].files@[0]),
                h > 0 ==> pieces@[0].files@[0].file_index == 0 && pieces@[0].files@[0].read_start_position == 0,
                h == 0 ==> file_index == 0 && file_remaining_length == lens[0],
                h > 0 ==> cursor_after(pieces@[h - 1].files@.last(), file_index as int, file_remaining_length as int, lens),
            decreases count - h,
        {
            proof {
                lemma_piece_bounds(total, pl, h as int);
                lemma_piece_bounds(total, pl, h + 1);
                lemma_prefix_sum_monotone(lens, 0, file_count as int);
                if file_index < file_count {
                    lemma_prefix_sum_monotone(lens, file_index + 1, file_count as int);
                }
            }
            proof {
                if h == 0 {
                    assert(h * pl == 0);
                }
            }
            let ghost start = consumed;
            let ghost prev: Option<PieceFile> = if h == 0 { None } else { Some(pieces@[h - 1].files@.last()) };
            proof {
                if h > 0 {
                    assert(piece_ok(lens, pieces@[h - 1], h - 1, info.pieces@[h - 1]@));
                    assert(segment_ok(lens, pieces@[h - 1].files@[pieces@[h - 1].files@.len() - 1]));
                }
            }
            let mut piece_files: Vec<PieceFile> = Vec::new();
            let mut piece_counted_length: u64 = 0;
            while piece_counted_length < piece_length && file_index < file_count
                invariant
                    prev matches Some(q) ==> segment_ok(lens, q),
                    piece_files@.len() == 0 ==> (prev is None ==> file_index == 0 && file_remaining_length == lens[0])
                        && (prev matches Some(q) ==> cursor_after(q, file_index as int, file_remaining_length as int, lens)),
                    piece_files@.len() > 0 ==> cursor_after(piece_files@.last(), file_index as int, file_remaining_length as int, lens),
                    piece_files@.len() > 0 ==> (prev is None ==> piece_files@[0].file_index == 0 && piece_files@[0].read_start_position == 0)
                        && (prev matches Some(q) ==> follows(q, piece_files@[0])),
                    forall|k: int|
                        0 <= k < piece_files@.len() - 1 ==> runs_to_end(#[trigger] piece_files@[k]) && follows(
                            piece_files@[k],
                            piece_files@[k + 1],
                        ),
                    piece_files@.len() > 0 && piece_counted_length < piece_length ==> runs_to_end(piece_files@.last()),
                    piece_files@.len() > 0 && piece_counted_length == piece_length ==> piece_files@.last().read_length > 0,
                    lens == info.file_lengths(),
                    lens == files@.map_values(|f: File| f.length),
                    lens.len() == file_count,
                    total == prefix_sum(lens, file_count as int),
                    pl == piece_length,
                    file_index <= file_count,
                    file_index < file_count ==> file_remaining_length <= lens[file_index as int],
                    consumed == if file_index < file_count {
                        prefix_sum(lens, file_index as int) + lens[file_index as int] - file_remaining_length
                    } else {
                        total
                    },
                    piece_counted_length <= piece_length,
                    consumed == start + piece_counted_length,
                    piece_counted_length == segments_total(piece_files@),
                    segments_ok(lens, piece_files@),
                    piece_files@.len() == 0 ==> piece_counted_length == 0 && file_index < file_count,
                    piece_files@.len() > 0 ==> global_start(lens, piece_files@[0]) == start,
                    piece_files@.len() > 0 ==> global_start(lens, piece_files@.last())
                        + piece_files@.last().read_length == consumed,
                decreases file_count - file_index + piece_length - piece_counted_length,
            {
                let current_length = files[file_index].length;
                let mut current_remaining = file_remaining_length;
                let remainder = piece_length - piece_counted_length;
                if current_remaining >= remainder {
                    current_remaining = current_remaining - remainder;
                    piece_counted_length = piece_length;
                } else {
                    piece_counted_length = piece_counted_length + current_remaining;
                    current_remaining = 0;
                }
                let segment = PieceFile {
                    read_start_position: current_length - file_remaining_length,
                    read_length: file_remaining_length - current_remaining,
                    file_length: current_length,
                    file_index,
                };
                proof {
                    lemma_segments_total_push(piece_files@, segment);
                    if piece_files@.len() > 0 {
                        assert(segment_ok(lens, piece_files@.last()));
                    }
                }
                piece_files.push(segment);
                proof {
                    consumed = consumed + segment.read_length;
                }
                file_remaining_length = current_remaining;
                if file_remaining_length == 0 {
                    file_index = file_index + 1;
                    if file_index < file_count {
                        file_remaining_length = files[file_index].length;
                    }
                }
            }
            proof {
                if file_index < file_count {
                    lemma_prefix_sum_monotone(lens, file_index + 1, file_count as int);
                }
            }
            pieces.push(Piece {
                position: h,
                files: piece_files,
                hash: copy_bytes(&info.pieces[h]),
                length: piece_counted_length,
            });
            h = h + 1;
        }
        proof {
            lemma_piece_bounds(total, pl, count);
        }
        pieces
    }

    fn construct_pieces_single_file(torrent: &Torrent) -> (r: Vec<Piece>)
        requires
            torrent.info.wf(),
            torrent.info.length is Some,
        ensures
            plan_ok(&torrent.info, r@),
    {
        let info = &torrent.info;
        let piece_length = info.piece_length;
        let file_length = match info.length {
            Some(l) => l,
            None => {
                return Vec::new();
            },
        };
        let ghost lens = info.file_lengths();
        let ghost total = info.total_length();
        let ghost pl = piece_length as int;
        let ghost count = info.pieces@.len() as int;
        let mut pieces: Vec<Piece> = Vec::new();
        let mut read_start_position: u64 = 0;
        let mut file_remaining_length: u64 = file_length;
        let mut h: usize = 0;
        while h < info.pieces.len()
            invariant
                info == &torrent.info,
                info.wf(),
                info.length == Some(file_length),
                lens == info.file_lengths(),
                lens == seq![file_length],
                total == file_length,
                pl == piece_length,
                pl == info.piece_length,
                count == info.pieces@.len(),
                0 <= h <= count,
                pieces@.len() == h,
                read_start_position + file_remaining_length == file_length,
                read_start_position == if h * pl <= total { h * pl } else { total },
                forall|i: int| 0 <= i < h ==> piece_ok(lens, #[trigger] pieces@[i], i, info.pieces@[i]@),
                h > 0 ==> piece_start(lens, pieces@[0]) == 0,
                forall|i: int|
                    0 <= i < h - 1 ==> (#[trigger] pieces@[i]).length == pl && piece_start(
                        lens,
                        pieces@[i + 1],
                    ) == piece_start(lens, pieces@[i]) + pieces@[i].length,
                h > 0 ==> piece_start(lens, pieces@[h - 1]) + pieces@[h - 1].length == read_start_position,
                h > 0 ==> pieces@[h - 1].length <= pl,
                h > 0 && h < count ==> pieces@[h - 1].length == pl,
                forall|i: int| 0 <= i < h ==> piece_walk_ok(#[trigger] pieces@[i], pl, 1),
                forall|i: int| 0 <= i < h - 1 ==> follows((#[trigger] pieces@[i]).files@.last(), pieces@[i + 1].files@[0]),
                h > 0 ==> pieces@[0].files@[0].file_index == 0 && pieces@[0].files@[0].read_start_position == 0,
                h > 0 ==> pieces@[h - 1].files@.last().file_index == 0,
                h > 0 ==> pieces@[h - 1].files@.last().file_length == file_length,
                h > 0 ==> seg_end(pieces@[h - 1].files@.last()) == read_start_position,
            decreases count - h,
        {
            proof {
                lemma_piece_bounds(total, pl, h as int);
                lemma_piece_bounds(total, pl, h + 1);
                if h == 0 {
                    assert(h * pl == 0);
                }
            }
            let read_length = if file_remaining_length < piece_length {
                file_remaining_length
            } else {
                piece_length
            };
            let mut files: Vec<PieceFile> = Vec::new();
            files.push(PieceFile { read_start_position, read_length, file_length, file_index: 0 });
            proof {
                assert(files@.drop_last() =~= Seq::<PieceFile>::empty());
                assert(segments_total(Seq::<PieceFile>::empty()) == 0);
                assert(segments_total(files@) == read_length);
                assert(segment_ok(lens, files@[0]));
                assert(segments_ok(lens, files@));
                if h > 0 {
                    assert(read_start_position < total);
                    assert(!runs_to_end(pieces@[h - 1].files@.last()));
                }
            }
            pieces.push(Piece {
                position: h,
                files,
                hash: copy_bytes(&info.pieces[h]),
                length: read_length,
            });
            file_remaining_length = file_remaining_length - read_length;
            read_start_position = read_start_position + read_length;
            h = h + 1;
        }
        proof {
            lemma_piece_bounds(total, pl, count);
        }
        pieces
    }
}

} // verus!
