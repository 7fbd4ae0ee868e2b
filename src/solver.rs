use vstd::prelude::*;
use crate::bencode::bytes_equal;
use crate::choices::{ChoiceConsumer, consumer_positions, consumer_limits};
use crate::digest::{sha1_digest, sha1_of};
use crate::metadata::{TorrentFileEntry, TorrentPieceEntry};

verus! {

/// The bytes that one candidate holds for a segment, and the path they were read from;
/// no path for the zeros of a padding file.
pub struct Candidate {
    pub path_id: Option<usize>,
    pub bytes: Vec<u8>,
}

/// The bytes of a piece that matched its digest, and the source of each segment.
#[derive(Debug)]
pub struct PieceMatchResult {
    pub bytes: Vec<u8>,
    pub paths: Vec<Option<usize>>,
}

/// What the solver reports of one piece.
#[derive(Debug)]
pub struct PieceUpdate {
    pub piece_id: usize,
    pub found: bool,
    pub fault: bool,
    pub output_bytes: Option<Vec<u8>>,
    pub output_paths: Option<Vec<Option<usize>>>,
}

/// The bytes of the candidates that `choice` picks, one per segment, one after the other.
pub open spec fn assembled(pre: Seq<Vec<Candidate>>, choice: Seq<int>) -> Seq<u8>
    decreases choice.len(),
{
    if choice.len() == 0 {
        Seq::empty()
    } else {
        assembled(pre, choice.drop_last()) + pre[choice.len() - 1]@[choice.last()].bytes@
    }
}

/// The sources of the candidates that `choice` picks.
pub open spec fn sources(pre: Seq<Vec<Candidate>>, choice: Seq<int>) -> Seq<Option<usize>> {
    Seq::new(choice.len(), |i: int| pre[i]@[choice[i]].path_id)
}

/// Whether `choice` picks a candidate of every segment.
pub open spec fn valid_choice(pre: Seq<Vec<Candidate>>, choice: Seq<int>) -> bool {
    &&& choice.len() == pre.len()
    &&& forall|i: int| 0 <= i < choice.len() ==> 0 <= #[trigger] choice[i] < pre[i]@.len()
}

/// Whether the SHA-1 digest of `bytes` is `hash`.
pub fn matches_hash(bytes: &[u8], hash: &[u8]) -> (r: bool)
    ensures
        r == (sha1_of(bytes@) == hash@),
{
    let digest = sha1_digest(bytes);
    bytes_equal(digest.as_slice(), hash)
}

/// Keeps the bytes of a candidate unless a candidate kept before holds the same bytes.
pub fn add_preloaded(results: &mut Vec<Candidate>, path_id: Option<usize>, bytes: Vec<u8>)
    ensures
        (exists|k: int| 0 <= k < old(results)@.len() && (#[trigger] old(results)@[k]).bytes@ == bytes@)
            ==> final(results)@ == old(results)@,
        !(exists|k: int| 0 <= k < old(results)@.len() && (#[trigger] old(results)@[k]).bytes@ == bytes@)
            ==> final(results)@ == old(results)@.push(Candidate { path_id, bytes }),
{
    let mut k: usize = 0;
    while k < results.len()
        invariant
            k <= results@.len(),
            forall|j: int| 0 <= j < k ==> (#[trigger] results@[j]).bytes@ != bytes@,
        decreases results.len() - k,
    {
        if bytes_equal(results[k].bytes.as_slice(), bytes.as_slice()) {
            return;
        }
        k = k + 1;
    }
    results.push(Candidate { path_id, bytes });
}

/// The zeros that a padding segment of `length` bytes holds.
pub fn padding_candidate(length: usize) -> (r: Candidate)
    ensures
        r.path_id is None,
        r.bytes@ == Seq::new(length as nat, |i: int| 0u8),
{
    let mut bytes: Vec<u8> = Vec::new();
    let mut i: usize = 0;
    while i < length
        invariant
            i <= length,
            bytes@ == Seq::new(i as nat, |j: int| 0u8),
        decreases length - i,
    {
        bytes.push(0);
        proof {
            assert(bytes@ =~= Seq::new((i + 1) as nat, |j: int| 0u8));
        }
        i = i + 1;
    }
    Candidate { path_id: None, bytes }
}

/// Checks the choice that `choices` holds now: the picked candidates' bytes, one after
/// the other, match the piece's digest. Returns them with their sources where they do.
pub fn check_choice(preloaded: &Vec<Vec<Candidate>>, choices: &ChoiceConsumer, piece_hash: &[u8]) -> (r: Option<PieceMatchResult>)
    requires
        !choices.ended,
        choices.wf(),
        choices.selection@.len() == preloaded@.len(),
        forall|i: int| 0 <= i < preloaded@.len() ==> #[trigger] consumer_limits(choices.selection@)[i] <= preloaded@[i]@.len(),
    ensures
        valid_choice(preloaded@, consumer_positions(choices.selection@)),
        match r {
            Some(m) => {
                &&& sha1_of(m.bytes@) == piece_hash@
                &&& m.bytes@ == assembled(preloaded@, consumer_positions(choices.selection@))
                &&& m.paths@ == sources(preloaded@, consumer_positions(choices.selection@))
            },
            None => sha1_of(assembled(preloaded@, consumer_positions(choices.selection@))) != piece_hash@,
        },
{
    let ghost choice = consumer_positions(choices.selection@);
    proof {
        assert forall|i: int| 0 <= i < choice.len() implies 0 <= #[trigger] choice[i] < preloaded@[i]@.len() by {
            assert(consumer_limits(choices.selection@)[i] <= preloaded@[i]@.len());
        }
    }
    let mut bytes: Vec<u8> = Vec::new();
    let mut paths: Vec<Option<usize>> = Vec::new();
    let n = choices.len();
    let mut index: usize = 0;
    while index < n
        invariant
            index <= n,
            n == choices.selection@.len(),
            n == preloaded@.len(),
            choice == consumer_positions(choices.selection@),
            valid_choice(preloaded@, choice),
            bytes@ == assembled(preloaded@, choice.subrange(0, index as int)),
            paths@ == sources(preloaded@, choice.subrange(0, index as int)),
        decreases n - index,
    {
        let pick = choices.get(index).get();
        proof {
            assert(pick == choice[index as int]);
            assert(0 <= choice[index as int] < preloaded@[index as int]@.len());
        }
        let candidate = &preloaded[index][pick];
        let mut k: usize = 0;
        let ghost before = bytes@;
        while k < candidate.bytes.len()
            invariant
                k <= candidate.bytes@.len(),
                bytes@ == before + candidate.bytes@.subrange(0, k as int),
            decreases candidate.bytes.len() - k,
        {
            bytes.push(candidate.bytes[k]);
            proof {
                assert(bytes@ =~= before + candidate.bytes@.subrange(0, k + 1));
            }
            k = k + 1;
        }
        paths.push(candidate.path_id);
        proof {
            let c = choice.subrange(0, index + 1);
            assert(c.drop_last() =~= choice.subrange(0, index as int));
            assert(candidate.bytes@.subrange(0, candidate.bytes@.len() as int) =~= candidate.bytes@);
            assert(paths@ =~= sources(preloaded@, c));
        }
        index = index + 1;
    }
    proof {
        assert(choice.subrange(0, n as int) =~= choice);
    }
    if matches_hash(bytes.as_slice(), piece_hash) {
        Some(PieceMatchResult { bytes, paths })
    } else {
        None
    }
}

// ---------------------------------------------------------------------------
// Writing a solved piece
// ---------------------------------------------------------------------------

/// One write of a solved piece: `output_bytes[from..to]` at `write_position` of the
/// export file of file record `file_id`.
#[derive(Debug, Clone, Copy, PartialEq, Eq)]
pub struct WriteOp {
    pub file_id: usize,
    pub export_target: usize,
    pub file_length: u64,
    pub write_position: u64,
    pub from: usize,
    pub to: usize,
}

/// Where segment `k` of a piece starts in the piece's bytes.
pub open spec fn segment_offset(segs: Seq<crate::metadata::TorrentPieceFileEntry>, k: int) -> int
    decreases k,
{
    if k <= 0 {
        0
    } else {
        segment_offset(segs, k - 1) + segs[k - 1].read_length
    }
}

proof fn lemma_segment_offset_monotone(segs: Seq<crate::metadata::TorrentPieceFileEntry>, j: int, k: int)
    requires
        0 <= j <= k <= segs.len(),
    ensures
        segment_offset(segs, j) <= segment_offset(segs, k),
    decreases k - j,
{
    if j < k {
        lemma_segment_offset_monotone(segs, j, k - 1);
    }
}

/// Whether segment `k` needs a write: it is not padding and its bytes did not come from
/// its own export path.
pub open spec fn needs_write(
    segs: Seq<crate::metadata::TorrentPieceFileEntry>,
    files: Seq<TorrentFileEntry>,
    sources: Seq<Option<usize>>,
    k: int,
) -> bool {
    let f = files[segs[k].file_id as int];
    !f.padding && sources[k] != Some(f.export_target)
}

/// The write of segment `k`.
pub open spec fn write_of(
    segs: Seq<crate::metadata::TorrentPieceFileEntry>,
    files: Seq<TorrentFileEntry>,
    k: int,
) -> WriteOp {
    let f = files[segs[k].file_id as int];
    WriteOp {
        file_id: segs[k].file_id,
        export_target: f.export_target,
        file_length: f.file_length,
        write_position: segs[k].read_start_position,
        from: segment_offset(segs, k) as usize,
        to: (segment_offset(segs, k) + segs[k].read_length) as usize,
    }
}

/// The writes of the first `n` segments, in order.
pub open spec fn writes_of(
    segs: Seq<crate::metadata::TorrentPieceFileEntry>,
    files: Seq<TorrentFileEntry>,
    sources: Seq<Option<usize>>,
    n: int,
) -> Seq<WriteOp>
    decreases n,
{
    if n <= 0 {
        Seq::empty()
    } else {
        let w = writes_of(segs, files, sources, n - 1);
        if needs_write(segs, files, sources, n - 1) {
            w.push(write_of(segs, files, n - 1))
        } else {
            w
        }
    }
}

/// Idempotence: a solved piece whose every segment is padding or came from its own
/// export path needs no write, so running again over an export tree that already holds
/// the pieces writes nothing.
pub proof fn lemma_nothing_to_rewrite(
    segs: Seq<crate::metadata::TorrentPieceFileEntry>,
    files: Seq<TorrentFileEntry>,
    sources: Seq<Option<usize>>,
    n: int,
)
    requires
        forall|k: int| 0 <= k < n ==> !#[trigger] needs_write(segs, files, sources, k),
    ensures
        writes_of(segs, files, sources, n) == Seq::<WriteOp>::empty(),
    decreases n,
{
    if n > 0 {
        lemma_nothing_to_rewrite(segs, files, sources, n - 1);
    }
}

/// The writes that put a solved piece in the export tree: one per segment, in order,
/// but for padding segments and segments whose bytes came from their own export path.
pub fn plan_writes(
    piece: &TorrentPieceEntry,
    files: &[TorrentFileEntry],
    output_paths: &Vec<Option<usize>>,
    output_length: usize,
) -> (r: Option<Vec<WriteOp>>)
    requires
        forall|k: int| 0 <= k < piece.files@.len() ==> (#[trigger] piece.files@[k]).file_id < files@.len(),
    ensures
        ({
            let n = if piece.files@.len() <= output_paths@.len() { piece.files@.len() } else { output_paths@.len() };
            match r {
                Some(ops) => {
                    &&& segment_offset(piece.files@, n as int) <= output_length
                    &&& ops@ == writes_of(piece.files@, files@, output_paths@, n as int)
                },
                None => segment_offset(piece.files@, n as int) > output_length,
            }
        }),
{
    let n = if piece.files.len() <= output_paths.len() {
        piece.files.len()
    } else {
        output_paths.len()
    };
    let mut ops: Vec<WriteOp> = Vec::new();
    let mut start: usize = 0;
    let mut k: usize = 0;
    while k < n
        invariant
            k <= n,
            n == (if piece.files@.len() <= output_paths@.len() { piece.files@.len() } else { output_paths@.len() }),
            forall|j: int| 0 <= j < piece.files@.len() ==> (#[trigger] piece.files@[j]).file_id < files@.len(),
            start == segment_offset(piece.files@, k as int),
            start <= output_length,
            ops@ == writes_of(piece.files@, files@, output_paths@, k as int),
        decreases n - k,
    {
        let segment = piece.files[k];
        let length = segment.read_length;
        if length > (output_length - start) as u64 {
            proof {
                assert(segment_offset(piece.files@, k + 1) == start + length);
                lemma_segment_offset_monotone(piece.files@, k + 1, n as int);
            }
            return None;
        }
        let end = start + length as usize;
        let file = &files[segment.file_id];
        let from_export = match output_paths[k] {
            Some(source) => source == file.export_target,
            None => false,
        };
        if !file.padding && !from_export {
            ops.push(WriteOp {
                file_id: segment.file_id,
                export_target: file.export_target,
                file_length: file.file_length,
                write_position: segment.read_start_position,
                from: start,
                to: end,
            });
        }
        start = end;
        k = k + 1;
    }
    Some(ops)
}

} // verus!
