//! The carving rules: what one scanning step decides about a working buffer,
//! and what a whole scanning pass yields.

use vstd::prelude::*;
use crate::scanner::{
    all_starts, find_all_starts, first_start_at, lemma_all_starts_ascending,
    lemma_candidate_at_first_start, lemma_earliest_candidate,
    lemma_earliest_candidate_in_extension, lemma_no_candidate, lemma_starts_differ, next_start,
    positions, start_at, FileType,
};
use crate::signature::{
    find_signature, first_at, first_occurrence, jpeg_end, jpeg_start,
    lemma_first_at_is_first_occurrence, lemma_first_occurrence_in_extension,
    lemma_first_occurrence_in_suffix, lemma_first_occurrence_none, lemma_occurs_in_extension, lemma_occurs_in_prefix,
    lemma_occurs_in_suffix, occurs_at, rw2_start, JPEG_END,
};

verus! {

/// How many bytes stay in the working buffer when it holds no start signature:
/// one less than the longest start signature, the longest part of a signature
/// that the next chunk could still complete.
pub const TAIL_KEPT: usize = 3;

/// What one scanning step decides, over mathematical positions.
pub enum Step {
    /// The bytes from `start` up to `end` are a complete file. Everything
    /// before `end` leaves the buffer.
    Emit { start: int, end: int, file_type: FileType },
    /// No file is complete yet. The bytes from `from` on stay in the buffer
    /// and wait for more data.
    Retain { from: int },
}

/// What one scanning step decides, as the engine computes it.
#[derive(Debug, Clone, Copy, PartialEq, Eq)]
pub enum Decision {
    /// The bytes from `start` up to `end` are a complete file.
    Emit { start: usize, end: usize, file_type: FileType },
    /// No file is complete yet; the bytes from `from` on stay in the buffer.
    Retain { from: usize },
}

impl View for Decision {
    type V = Step;

    open spec fn view(&self) -> Step {
        match *self {
            Decision::Emit { start, end, file_type } => Step::Emit {
                start: start as int,
                end: end as int,
                file_type,
            },
            Decision::Retain { from } => Step::Retain { from: from as int },
        }
    }
}

/// Where the part of `buffer` that is kept begins when the buffer holds no
/// start signature: `TAIL_KEPT` bytes before its end, or at its beginning
/// where it is shorter.
pub open spec fn tail_from(buffer: Seq<u8>) -> int {
    if buffer.len() > TAIL_KEPT {
        buffer.len() - TAIL_KEPT
    } else {
        0
    }
}

/// The decision of one scanning step on `buffer`.
///
/// The earliest candidate is the active one. A JPEG file ends with the first
/// end marker that begins after its start marker; without one, the buffer is
/// cut down to begin at the candidate. An RW2 file ends where the next start
/// signature of either format begins, searched from behind its own signature;
/// without one it ends where the buffer ends. Without any candidate only the
/// last `TAIL_KEPT` bytes stay.
pub open spec fn scan_step(buffer: Seq<u8>) -> Step {
    let candidates = all_starts(buffer);
    if candidates.len() == 0 {
        Step::Retain { from: tail_from(buffer) }
    } else {
        let start = candidates[0].0;
        match candidates[0].1 {
            FileType::Jpeg => match first_occurrence(
                buffer.skip(start + jpeg_start().len()),
                jpeg_end(),
            ) {
                Some(offset) => Step::Emit {
                    start,
                    end: start + jpeg_start().len() + offset + jpeg_end().len(),
                    file_type: FileType::Jpeg,
                },
                None => Step::Retain { from: start },
            },
            FileType::Rw2 => {
                let following = all_starts(buffer.skip(start + rw2_start().len()));
                if following.len() == 0 {
                    Step::Emit { start, end: buffer.len() as int, file_type: FileType::Rw2 }
                } else {
                    Step::Emit {
                        start,
                        end: start + rw2_start().len() + following[0].0,
                        file_type: FileType::Rw2,
                    }
                }
            },
        }
    }
}

/// An emitted file lies inside the buffer and is at least four bytes long; a
/// retained part begins inside the buffer or at its end.
pub proof fn lemma_scan_step_bounds(buffer: Seq<u8>)
    ensures
        match scan_step(buffer) {
            Step::Emit { start, end, file_type } => 0 <= start && start + 4 <= end && end
                <= buffer.len(),
            Step::Retain { from } => 0 <= from <= buffer.len(),
        },
{
    lemma_all_starts_ascending(buffer);
    let candidates = all_starts(buffer);
    if candidates.len() > 0 {
        let start = candidates[0].0;
        match candidates[0].1 {
            FileType::Jpeg => {
                assert(occurs_at(buffer, jpeg_start(), start));
                let rest = buffer.skip(start + 2);
                match first_occurrence(rest, jpeg_end()) {
                    Some(offset) => {
                        assert(first_at(rest, jpeg_end(), offset));
                    },
                    None => {},
                }
            },
            FileType::Rw2 => {
                assert(occurs_at(buffer, rw2_start(), start));
                lemma_all_starts_ascending(buffer.skip(start + 4));
            },
        }
    }
}

/// A carved file as a mathematical value: its bytes and its format.
pub struct Carved {
    pub data: Seq<u8>,
    pub file_type: FileType,
}

/// The files that a scanning pass carves out of `buffer`, in the order in
/// which they leave it: step after step, each on what the step before left,
/// until a step retains.
pub open spec fn carved(buffer: Seq<u8>) -> Seq<Carved>
    decreases buffer.len(),
    via carved_decreases
{
    match scan_step(buffer) {
        Step::Emit { start, end, file_type } => seq![
            Carved { data: buffer.subrange(start, end), file_type },
        ] + carved(buffer.skip(end)),
        Step::Retain { from } => Seq::empty(),
    }
}

#[via_fn]
proof fn carved_decreases(buffer: Seq<u8>) {
    lemma_scan_step_bounds(buffer);
}

/// The bytes that a scanning pass leaves in the working buffer.
pub open spec fn remainder(buffer: Seq<u8>) -> Seq<u8>
    decreases buffer.len(),
    via remainder_decreases
{
    match scan_step(buffer) {
        Step::Emit { start, end, file_type } => remainder(buffer.skip(end)),
        Step::Retain { from } => buffer.skip(from),
    }
}

#[via_fn]
proof fn remainder_decreases(buffer: Seq<u8>) {
    lemma_scan_step_bounds(buffer);
}

/// A buffer on which a scanning step changes nothing: it yields no file and
/// drops no byte.
pub open spec fn settled(buffer: Seq<u8>) -> bool {
    scan_step(buffer) == (Step::Retain { from: 0 })
}

/// The empty buffer is settled.
pub proof fn lemma_empty_is_settled()
    ensures
        settled(Seq::<u8>::empty()),
{
    let empty = Seq::<u8>::empty();
    lemma_first_occurrence_none(empty, jpeg_start());
    lemma_first_occurrence_none(empty, rw2_start());
}

/// What a scanning step retains is settled: a further step on it yields no
/// file and drops no byte.
pub proof fn lemma_retained_is_settled(buffer: Seq<u8>)
    ensures
        scan_step(buffer) matches Step::Retain { from } ==> settled(buffer.skip(from)),
{
    lemma_scan_step_bounds(buffer);
    if let Step::Retain { from } = scan_step(buffer) {
        let kept = buffer.skip(from);
        if all_starts(buffer).len() == 0 {
            lemma_no_candidate(buffer);
            assert forall|j: int| start_at(kept, j) is None by {
                lemma_occurs_in_suffix(buffer, jpeg_start(), from, j);
                lemma_occurs_in_suffix(buffer, rw2_start(), from, j);
                assert(start_at(buffer, j + from) is None);
            }
            lemma_no_candidate(kept);
        } else {
            lemma_earliest_candidate(buffer);
            assert(all_starts(buffer)[0].1 == FileType::Jpeg);
            assert(occurs_at(buffer, jpeg_start(), from));
            lemma_occurs_in_suffix(buffer, jpeg_start(), from, 0);
            assert(first_start_at(kept, 0));
            lemma_candidate_at_first_start(kept, 0);
            assert(kept.skip(2) =~= buffer.skip(from + 2));
        }
    }
}

/// What a settled buffer looks like: either it holds no start signature and
/// is at most `TAIL_KEPT` bytes long, or it opens with the JPEG start marker
/// and holds no JPEG end marker behind it.
pub proof fn lemma_settled_means(buffer: Seq<u8>)
    ensures
        settled(buffer) <==> {
            ||| next_start(buffer) is None && buffer.len() <= TAIL_KEPT
            ||| occurs_at(buffer, jpeg_start(), 0) && first_occurrence(buffer.skip(2), jpeg_end())
                is None
        },
{
    lemma_scan_step_bounds(buffer);
    lemma_no_candidate(buffer);
    if all_starts(buffer).len() > 0 {
        lemma_earliest_candidate(buffer);
    }
    if occurs_at(buffer, jpeg_start(), 0) {
        lemma_candidate_at_front(buffer);
    }
}

/// A pass over a settled buffer carves nothing and leaves the buffer as it is.
pub proof fn lemma_settled_pass(buffer: Seq<u8>)
    requires
        settled(buffer),
    ensures
        carved(buffer) == Seq::<Carved>::empty(),
        remainder(buffer) == buffer,
{
    assert(buffer.skip(0) =~= buffer);
}

/// What a scanning pass leaves is settled: a further pass on it carves
/// nothing and leaves it as it is.
pub proof fn lemma_remainder_is_settled(buffer: Seq<u8>)
    ensures
        settled(remainder(buffer)),
        carved(remainder(buffer)) == Seq::<Carved>::empty(),
        remainder(remainder(buffer)) == remainder(buffer),
    decreases buffer.len(),
{
    lemma_scan_step_bounds(buffer);
    match scan_step(buffer) {
        Step::Emit { start, end, file_type } => {
            lemma_remainder_is_settled(buffer.skip(end));
        },
        Step::Retain { from } => {
            lemma_retained_is_settled(buffer);
        },
    }
    lemma_settled_pass(remainder(buffer));
}

/// An emitted file opens with the start signature of its format, and a JPEG
/// file closes with the end marker, which lies nowhere else in it behind the
/// start signature.
pub proof fn lemma_emitted_shape(buffer: Seq<u8>)
    ensures
        match scan_step(buffer) {
            Step::Emit { start, end, file_type: FileType::Jpeg } => {
                let data = buffer.subrange(start, end);
                &&& occurs_at(data, jpeg_start(), 0)
                &&& first_occurrence(data.skip(2), jpeg_end()) == Some(data.len() - 4)
            },
            Step::Emit { start, end, file_type: FileType::Rw2 } => occurs_at(
                buffer.subrange(start, end),
                rw2_start(),
                0,
            ),
            Step::Retain { from } => true,
        },
{
    lemma_scan_step_bounds(buffer);
    if let Step::Emit { start, end, file_type } = scan_step(buffer) {
        lemma_earliest_candidate(buffer);
        let data = buffer.subrange(start, end);
        match file_type {
            FileType::Jpeg => {
                assert(occurs_at(buffer, jpeg_start(), start));
                assert(data.subrange(0, 2) =~= buffer.subrange(start, start + 2));
                let behind = buffer.skip(start + 2);
                let offset = first_occurrence(behind, jpeg_end())->0;
                assert(first_at(behind, jpeg_end(), offset));
                let inner = data.skip(2);
                assert(inner =~= behind.subrange(0, end - start - 2));
                lemma_occurs_in_prefix(behind, jpeg_end(), end - start - 2, offset);
                assert forall|j: int| 0 <= j < offset implies !occurs_at(inner, jpeg_end(), j) by {
                    lemma_occurs_in_prefix(behind, jpeg_end(), end - start - 2, j);
                }
                lemma_first_at_is_first_occurrence(inner, jpeg_end(), offset);
            },
            FileType::Rw2 => {
                assert(occurs_at(buffer, rw2_start(), start));
                assert(data.subrange(0, 4) =~= buffer.subrange(start, start + 4));
            },
        }
    }
}

/// A buffer made of the JPEG start marker, a payload and the JPEG end marker
/// is carved into exactly one file, which is the whole buffer with both
/// markers, tagged JPEG; nothing remains. This holds where the end marker at
/// the buffer's end is the first one behind the start marker.
pub proof fn lemma_whole_jpeg(payload: Seq<u8>)
    requires
        first_occurrence(payload + jpeg_end(), jpeg_end()) == Some(payload.len() as int),
    ensures
        carved(jpeg_start() + payload + jpeg_end()) == seq![
            Carved { data: jpeg_start() + payload + jpeg_end(), file_type: FileType::Jpeg },
        ],
        remainder(jpeg_start() + payload + jpeg_end()) == Seq::<u8>::empty(),
{
    let buffer = jpeg_start() + payload + jpeg_end();
    let behind = payload + jpeg_end();
    assert(buffer =~= jpeg_start() + behind);
    lemma_opens_with(jpeg_start(), behind);
    lemma_candidate_at_front(buffer);
    assert(buffer.skip(2) =~= behind);
    let end = buffer.len() as int;
    assert(scan_step(buffer) == Step::Emit { start: 0, end, file_type: FileType::Jpeg });
    assert(buffer.subrange(0, end) =~= buffer);
    assert(buffer.skip(end) =~= Seq::<u8>::empty());
    lemma_empty_is_settled();
    lemma_settled_pass(Seq::<u8>::empty());
    assert(carved(buffer) =~= seq![Carved { data: buffer, file_type: FileType::Jpeg }]);
}

/// In a buffer that opens with the RW2 start signature, the first carved file
/// is an RW2 file that runs from the buffer's beginning up to, and not
/// including, the next start signature. This holds where `following` opens
/// with a start signature of either format and none begins earlier behind the
/// RW2 signature.
pub proof fn lemma_rw2_until_next_start(payload: Seq<u8>, following: Seq<u8>)
    requires
        next_start(payload + following) == Some(payload.len() as int),
    ensures
        scan_step(rw2_start() + payload + following) == (Step::Emit {
            start: 0,
            end: 4 + payload.len() as int,
            file_type: FileType::Rw2,
        }),
        carved(rw2_start() + payload + following).len() > 0,
        carved(rw2_start() + payload + following)[0] == (Carved {
            data: rw2_start() + payload,
            file_type: FileType::Rw2,
        }),
{
    let buffer = rw2_start() + payload + following;
    let behind = payload + following;
    assert(scan_step(buffer) == (Step::Emit {
        start: 0,
        end: 4 + payload.len() as int,
        file_type: FileType::Rw2,
    })) by {
        assert(buffer =~= rw2_start() + behind);
        lemma_opens_with(rw2_start(), behind);
        lemma_starts_differ(buffer, 0);
        lemma_candidate_at_front(buffer);
        assert(buffer.skip(4) =~= behind);
        lemma_no_candidate(behind);
        lemma_earliest_candidate(behind);
    }
    lemma_first_carved(buffer);
    assert(buffer.subrange(0, 4 + payload.len() as int) =~= rw2_start() + payload);
}

/// The first file of a pass is the file that the first step emits; a pass
/// whose first step retains carves nothing.
pub proof fn lemma_first_carved(buffer: Seq<u8>)
    ensures
        match scan_step(buffer) {
            Step::Emit { start, end, file_type } => carved(buffer).len() > 0 && carved(buffer)[0]
                == (Carved { data: buffer.subrange(start, end), file_type }),
            Step::Retain { from } => carved(buffer).len() == 0,
        },
{
}

/// A buffer that opens with a start signature has its earliest candidate at
/// index 0, with the format of that signature.
pub proof fn lemma_candidate_at_front(buffer: Seq<u8>)
    requires
        start_at(buffer, 0) is Some,
    ensures
        all_starts(buffer).len() > 0,
        all_starts(buffer)[0] == (0int, start_at(buffer, 0)->0),
{
    assert(first_start_at(buffer, 0));
    lemma_candidate_at_first_start(buffer, 0);
}

/// A buffer that is put together from a non-empty `head` and a `tail` opens
/// with `head`.
pub proof fn lemma_opens_with(head: Seq<u8>, tail: Seq<u8>)
    requires
        head.len() > 0,
    ensures
        occurs_at(head + tail, head, 0),
{
    assert((head + tail).subrange(0, head.len() as int) =~= head);
}

/// A buffer whose earliest candidate is a JPEG start with no end marker
/// behind it yields no file: the pass carves nothing and keeps the buffer from
/// that candidate on.
pub proof fn lemma_open_jpeg_waits(buffer: Seq<u8>)
    requires
        all_starts(buffer).len() > 0,
        all_starts(buffer)[0].1 == FileType::Jpeg,
        first_occurrence(buffer.skip(all_starts(buffer)[0].0 + 2), jpeg_end()) is None,
    ensures
        carved(buffer) == Seq::<Carved>::empty(),
        remainder(buffer) == buffer.skip(all_starts(buffer)[0].0),
{
}

/// The decision `step` with every position moved `k` places further on.
pub open spec fn moved(step: Step, k: int) -> Step {
    match step {
        Step::Emit { start, end, file_type } => Step::Emit {
            start: start + k,
            end: end + k,
            file_type,
        },
        Step::Retain { from } => Step::Retain { from: from + k },
    }
}

/// Bytes at the front of a buffer that hold no start signature, and that a
/// step without candidate would drop anyway, do not change what the step
/// decides: the decision is the one on the buffer without them, moved.
pub proof fn lemma_step_skips_dead_prefix(buffer: Seq<u8>, k: int)
    requires
        0 <= k <= buffer.len(),
        forall|j: int| 0 <= j < k ==> start_at(buffer, j) is None,
        all_starts(buffer).len() == 0 ==> k <= tail_from(buffer),
    ensures
        scan_step(buffer) == moved(scan_step(buffer.skip(k)), k),
{
    let suffix = buffer.skip(k);
    assert forall|j: int| 0 <= j < k implies !occurs_at(buffer, jpeg_start(), j) && !occurs_at(
        buffer,
        rw2_start(),
        j,
    ) by {
        assert(start_at(buffer, j) is None);
    }
    lemma_first_occurrence_in_suffix(buffer, jpeg_start(), k);
    lemma_first_occurrence_in_suffix(buffer, rw2_start(), k);
    lemma_all_starts_ascending(suffix);
    if all_starts(suffix).len() > 0 {
        let start = all_starts(suffix)[0].0;
        assert(all_starts(buffer)[0] == (start + k, all_starts(suffix)[0].1));
        match all_starts(suffix)[0].1 {
            FileType::Jpeg => {
                assert(occurs_at(suffix, jpeg_start(), start));
                assert(buffer.skip(start + k + 2) =~= suffix.skip(start + 2));
            },
            FileType::Rw2 => {
                assert(occurs_at(suffix, rw2_start(), start));
                assert(buffer.skip(start + k + 4) =~= suffix.skip(start + 4));
            },
        }
    }
}

/// The step on `buffer` emits an RW2 file that ends where the buffer ends,
/// because no start signature follows: the one decision that more data could
/// have changed.
pub open spec fn flushes(buffer: Seq<u8>) -> bool {
    &&& all_starts(buffer).len() > 0
    &&& all_starts(buffer)[0].1 == FileType::Rw2
    &&& all_starts(buffer.skip(all_starts(buffer)[0].0 + rw2_start().len())).len() == 0
}

/// Some step of the pass over `buffer` flushes.
pub open spec fn pass_flushes(buffer: Seq<u8>) -> bool
    decreases buffer.len(),
    via pass_flushes_decreases
{
    match scan_step(buffer) {
        Step::Emit { start, end, file_type } => flushes(buffer) || pass_flushes(buffer.skip(end)),
        Step::Retain { from } => false,
    }
}

#[via_fn]
proof fn pass_flushes_decreases(buffer: Seq<u8>) {
    lemma_scan_step_bounds(buffer);
}

/// What a step retains is all that later steps need: once more bytes have
/// arrived, the step on the retained bytes and the new ones decides what the
/// step on the whole buffer and the new bytes would have decided.
pub proof fn lemma_retained_suffices(buffer: Seq<u8>, more: Seq<u8>)
    ensures
        scan_step(buffer) matches Step::Retain { from } ==> scan_step(buffer + more) == moved(
            scan_step(buffer.skip(from) + more),
            from,
        ),
{
    lemma_scan_step_bounds(buffer);
    if let Step::Retain { from } = scan_step(buffer) {
        let longer = buffer + more;
        assert(longer.skip(from) =~= buffer.skip(from) + more);
        if all_starts(buffer).len() == 0 {
            lemma_no_candidate(buffer);
            assert forall|j: int| 0 <= j < from implies start_at(longer, j) is None by {
                lemma_occurs_in_extension(buffer, more, jpeg_start(), j);
                lemma_occurs_in_extension(buffer, more, rw2_start(), j);
                assert(start_at(buffer, j) is None);
            }
        } else {
            lemma_earliest_candidate(buffer);
            lemma_earliest_candidate_in_extension(buffer, more);
            lemma_earliest_candidate(longer);
        }
        lemma_step_skips_dead_prefix(longer, from);
    }
}

/// A file that a marker closed stays as it is: unless the step flushes, it
/// decides the same whatever bytes are appended to the buffer.
pub proof fn lemma_closed_file_is_final(buffer: Seq<u8>, more: Seq<u8>)
    requires
        scan_step(buffer) is Emit,
        !flushes(buffer),
    ensures
        scan_step(buffer + more) == scan_step(buffer),
{
    let longer = buffer + more;
    lemma_earliest_candidate(buffer);
    lemma_earliest_candidate_in_extension(buffer, more);
    let start = all_starts(buffer)[0].0;
    match all_starts(buffer)[0].1 {
        FileType::Jpeg => {
            assert(occurs_at(buffer, jpeg_start(), start));
            assert(longer.skip(start + 2) =~= buffer.skip(start + 2) + more);
            lemma_first_occurrence_in_extension(buffer.skip(start + 2), more, jpeg_end());
        },
        FileType::Rw2 => {
            assert(occurs_at(buffer, rw2_start(), start));
            assert(longer.skip(start + 4) =~= buffer.skip(start + 4) + more);
            lemma_earliest_candidate_in_extension(buffer.skip(start + 4), more);
        },
    }
}

/// The pass over `buffer` with every decision moved: the same files, the same
/// remainder.
pub proof fn lemma_pass_skips_dead_prefix(buffer: Seq<u8>, k: int)
    requires
        0 <= k <= buffer.len(),
        scan_step(buffer) == moved(scan_step(buffer.skip(k)), k),
    ensures
        carved(buffer) == carved(buffer.skip(k)),
        remainder(buffer) == remainder(buffer.skip(k)),
{
    let suffix = buffer.skip(k);
    lemma_scan_step_bounds(suffix);
    match scan_step(suffix) {
        Step::Emit { start, end, file_type } => {
            assert(buffer.subrange(start + k, end + k) =~= suffix.subrange(start, end));
            assert(buffer.skip(end + k) =~= suffix.skip(end));
        },
        Step::Retain { from } => {
            assert(buffer.skip(from + k) =~= suffix.skip(from));
        },
    }
}

/// Where the bytes arrive in two parts, the engine carves what it would have
/// carved from the whole: the files of the pass over the first part, then the
/// files of the pass over what that pass left and the second part. This holds
/// unless the pass over the first part flushes an RW2 file at the buffer's
/// end.
pub proof fn lemma_chunking_is_invisible(buffer: Seq<u8>, more: Seq<u8>)
    requires
        !pass_flushes(buffer),
    ensures
        carved(buffer + more) == carved(buffer) + carved(remainder(buffer) + more),
        remainder(buffer + more) == remainder(remainder(buffer) + more),
    decreases buffer.len(),
{
    let longer = buffer + more;
    lemma_scan_step_bounds(buffer);
    match scan_step(buffer) {
        Step::Emit { start, end, file_type } => {
            lemma_closed_file_is_final(buffer, more);
            assert(longer.skip(end) =~= buffer.skip(end) + more);
            assert(longer.subrange(start, end) =~= buffer.subrange(start, end));
            lemma_chunking_is_invisible(buffer.skip(end), more);
            let first = seq![Carved { data: buffer.subrange(start, end), file_type }];
            assert(carved(longer) == first + carved(longer.skip(end)));
            assert(carved(buffer) == first + carved(buffer.skip(end)));
            assert(first + (carved(buffer.skip(end)) + carved(remainder(buffer) + more)) =~= (first
                + carved(buffer.skip(end))) + carved(remainder(buffer) + more));
        },
        Step::Retain { from } => {
            lemma_retained_suffices(buffer, more);
            assert(longer.skip(from) =~= buffer.skip(from) + more);
            lemma_pass_skips_dead_prefix(longer, from);
            assert(Seq::<Carved>::empty() + carved(remainder(buffer) + more) =~= carved(
                remainder(buffer) + more,
            ));
        },
    }
}

/// Every carved file takes at least four bytes of the buffer, so a pass
/// carves at most a quarter as many files as the buffer has bytes.
pub proof fn lemma_carved_count(buffer: Seq<u8>)
    ensures
        4 * carved(buffer).len() <= buffer.len(),
        remainder(buffer).len() <= buffer.len(),
    decreases buffer.len(),
{
    lemma_scan_step_bounds(buffer);
    match scan_step(buffer) {
        Step::Emit { start, end, file_type } => {
            lemma_carved_count(buffer.skip(end));
        },
        Step::Retain { from } => {},
    }
}

/// One scanning step on `buffer`: the decision that `scan_step` describes.
pub fn decide(buffer: &[u8]) -> (decision: Decision)
    ensures
        decision@ == scan_step(buffer@),
        match decision {
            Decision::Emit { start, end, file_type } => start + 4 <= end && end <= buffer@.len(),
            Decision::Retain { from } => from <= buffer@.len(),
        },
{
    proof {
        lemma_scan_step_bounds(buffer@);
    }
    let len: usize = buffer.len();
    let candidates = find_all_starts(buffer);
    if candidates.len() == 0 {
        assert(positions(candidates@).len() == 0);
        let from: usize = if len > TAIL_KEPT {
            len - TAIL_KEPT
        } else {
            0
        };
        return Decision::Retain { from };
    }
    let start: usize = candidates[0].0;
    let file_type: FileType = candidates[0].1;
    assert(positions(candidates@)[0] == (start as int, file_type));
    match file_type {
        FileType::Jpeg => {
            assert(JPEG_END@ =~= jpeg_end());
            let rest = vstd::slice::slice_subrange(buffer, start + 2, len);
            assert(rest@ =~= buffer@.skip(start + 2));
            match find_signature(rest, JPEG_END.as_slice()) {
                Some(offset) => Decision::Emit {
                    start,
                    end: start + 2 + offset + 2,
                    file_type: FileType::Jpeg,
                },
                None => Decision::Retain { from: start },
            }
        },
        FileType::Rw2 => {
            let rest = vstd::slice::slice_subrange(buffer, start + 4, len);
            assert(rest@ =~= buffer@.skip(start + 4));
            let following = find_all_starts(rest);
            if following.len() == 0 {
                assert(positions(following@).len() == 0);
                Decision::Emit { start, end: len, file_type: FileType::Rw2 }
            } else {
                let next: usize = following[0].0;
                assert(positions(following@)[0].0 == next as int);
                Decision::Emit { start, end: start + 4 + next, file_type: FileType::Rw2 }
            }
        },
    }
}

} // verus!
