//! Boundary scanner: where files of a known format start in a buffer.

use vstd::prelude::*;
use crate::signature::{
    find_signature, first_occurrence, jpeg_start, lemma_first_occurrence_in_range,
    lemma_first_occurrence_none, lemma_occurs_in_extension, matches_at, occurs_at, rw2_start,
    JPEG_START, RW2_START,
};

verus! {

/// The format of a recovered file. It decides how the file's end is found and
/// which extension its name gets.
#[derive(Debug, Clone, Copy, PartialEq, Eq, Structural)]
pub enum FileType {
    Jpeg,
    Rw2,
}

/// A place where a file may start: the index of the start signature and the
/// format that the signature belongs to.
pub type Candidate = (usize, FileType);

/// The format whose start signature lies in `buffer` at index `i`, if any. The
/// JPEG signature is tried first.
pub open spec fn start_at(buffer: Seq<u8>, i: int) -> Option<FileType> {
    if occurs_at(buffer, jpeg_start(), i) {
        Some(FileType::Jpeg)
    } else if occurs_at(buffer, rw2_start(), i) {
        Some(FileType::Rw2)
    } else {
        None
    }
}

/// A start signature lies at `i` and none lies before `i`.
pub open spec fn first_start_at(buffer: Seq<u8>, i: int) -> bool {
    &&& start_at(buffer, i) is Some
    &&& forall|j: int| 0 <= j < i ==> start_at(buffer, j) is None
}

/// The lowest index at which a start signature of either format lies.
pub open spec fn next_start(buffer: Seq<u8>) -> Option<int> {
    if exists|i: int| first_start_at(buffer, i) {
        Some(choose|i: int| first_start_at(buffer, i))
    } else {
        None
    }
}

/// The candidates of a buffer: the first JPEG start and the first RW2 start,
/// as far as they exist, the one at the lower index first.
pub open spec fn all_starts(buffer: Seq<u8>) -> Seq<(int, FileType)> {
    match (first_occurrence(buffer, jpeg_start()), first_occurrence(buffer, rw2_start())) {
        (None, None) => seq![],
        (Some(a), None) => seq![(a, FileType::Jpeg)],
        (None, Some(b)) => seq![(b, FileType::Rw2)],
        (Some(a), Some(b)) => if a <= b {
            seq![(a, FileType::Jpeg), (b, FileType::Rw2)]
        } else {
            seq![(b, FileType::Rw2), (a, FileType::Jpeg)]
        },
    }
}

/// What a list of candidates stands for: each position as an integer, with
/// its format.
pub open spec fn positions(candidates: Seq<Candidate>) -> Seq<(int, FileType)> {
    Seq::new(candidates.len(), |i: int| (candidates[i].0 as int, candidates[i].1))
}

/// The two start signatures differ in their first byte, so they never lie at
/// the same index.
pub proof fn lemma_starts_differ(buffer: Seq<u8>, i: int)
    ensures
        !(occurs_at(buffer, jpeg_start(), i) && occurs_at(buffer, rw2_start(), i)),
{
    if occurs_at(buffer, jpeg_start(), i) && occurs_at(buffer, rw2_start(), i) {
        assert(buffer.subrange(i, i + 2)[0] == jpeg_start()[0]);
        assert(buffer.subrange(i, i + 4)[0] == rw2_start()[0]);
    }
}

/// The candidates of any buffer stand in strictly ascending order of position,
/// each at the first occurrence of its format's start signature.
pub proof fn lemma_all_starts_ascending(buffer: Seq<u8>)
    ensures
        all_starts(buffer).len() <= 2,
        forall|i: int, j: int|
            0 <= i < j < all_starts(buffer).len() ==> all_starts(buffer)[i].0 < all_starts(
                buffer,
            )[j].0,
        forall|i: int|
            0 <= i < all_starts(buffer).len() ==> 0 <= all_starts(buffer)[i].0 < buffer.len()
                && start_at(buffer, all_starts(buffer)[i].0) == Some(all_starts(buffer)[i].1),
{
    lemma_first_occurrence_in_range(buffer, jpeg_start());
    lemma_first_occurrence_in_range(buffer, rw2_start());
    match (first_occurrence(buffer, jpeg_start()), first_occurrence(buffer, rw2_start())) {
        (Some(a), Some(b)) => {
            lemma_starts_differ(buffer, a);
        },
        (None, Some(b)) => {
            lemma_first_occurrence_none(buffer, jpeg_start());
        },
        _ => {},
    }
}

/// A buffer has no candidate exactly where no start signature lies in it.
pub proof fn lemma_no_candidate(buffer: Seq<u8>)
    ensures
        all_starts(buffer).len() == 0 <==> forall|j: int| start_at(buffer, j) is None,
        all_starts(buffer).len() == 0 <==> next_start(buffer) is None,
{
    lemma_first_occurrence_none(buffer, jpeg_start());
    lemma_first_occurrence_none(buffer, rw2_start());
    lemma_first_occurrence_in_range(buffer, jpeg_start());
    lemma_first_occurrence_in_range(buffer, rw2_start());
    if all_starts(buffer).len() == 0 {
        assert forall|j: int| start_at(buffer, j) is None by {
            assert(!occurs_at(buffer, jpeg_start(), j));
            assert(!occurs_at(buffer, rw2_start(), j));
        }
    } else {
        lemma_earliest_candidate(buffer);
    }
    if next_start(buffer) is Some {
        let i = next_start(buffer)->0;
        assert(first_start_at(buffer, i));
    }
}

/// The earliest candidate stands at the lowest index at which a start
/// signature of either format lies, which is what `next_start` gives, and
/// carries the format of the signature that lies there.
pub proof fn lemma_earliest_candidate(buffer: Seq<u8>)
    requires
        all_starts(buffer).len() > 0,
    ensures
        first_start_at(buffer, all_starts(buffer)[0].0),
        start_at(buffer, all_starts(buffer)[0].0) == Some(all_starts(buffer)[0].1),
        next_start(buffer) == Some(all_starts(buffer)[0].0),
{
    lemma_all_starts_ascending(buffer);
    lemma_first_occurrence_in_range(buffer, jpeg_start());
    lemma_first_occurrence_in_range(buffer, rw2_start());
    lemma_first_occurrence_none(buffer, jpeg_start());
    lemma_first_occurrence_none(buffer, rw2_start());
    let first = all_starts(buffer)[0].0;
    assert forall|j: int| 0 <= j < first implies start_at(buffer, j) is None by {
        assert(!occurs_at(buffer, jpeg_start(), j));
        assert(!occurs_at(buffer, rw2_start(), j));
    }
    lemma_first_start_is_next_start(buffer, first);
}

/// Where a start signature lies at `i` and none before it, the earliest
/// candidate stands at `i` with that signature's format.
pub proof fn lemma_candidate_at_first_start(buffer: Seq<u8>, i: int)
    requires
        first_start_at(buffer, i),
    ensures
        all_starts(buffer).len() > 0,
        all_starts(buffer)[0] == (i, start_at(buffer, i)->0),
{
    lemma_no_candidate(buffer);
    assert(start_at(buffer, i) is Some);
    lemma_earliest_candidate(buffer);
    let first = all_starts(buffer)[0].0;
    if first < i {
        assert(start_at(buffer, first) is None);
    } else if i < first {
        assert(start_at(buffer, i) is None);
    }
}

/// Appending bytes to a buffer changes nothing at or before a place where a
/// start signature lies: up to there, the same signatures lie at the same
/// places.
pub proof fn lemma_start_in_extension(buffer: Seq<u8>, more: Seq<u8>, p: int, j: int)
    requires
        start_at(buffer, p) is Some,
        0 <= j <= p,
    ensures
        start_at(buffer + more, j) == start_at(buffer, j),
{
    let longer = buffer + more;
    lemma_occurs_in_extension(buffer, more, jpeg_start(), j);
    if j + 4 <= buffer.len() {
        lemma_occurs_in_extension(buffer, more, rw2_start(), j);
    } else if occurs_at(longer, rw2_start(), j) {
        // The RW2 signature would have to run over the JPEG signature at `p`.
        assert(occurs_at(buffer, jpeg_start(), p));
        assert(buffer.subrange(p, p + 2)[0] == jpeg_start()[0]);
        assert(longer[p] == buffer[p]);
        assert(longer.subrange(j, j + 4)[p - j] == rw2_start()[p - j]);
    }
}

/// The earliest candidate of a buffer stays the earliest candidate when bytes
/// are appended.
pub proof fn lemma_earliest_candidate_in_extension(buffer: Seq<u8>, more: Seq<u8>)
    requires
        all_starts(buffer).len() > 0,
    ensures
        all_starts(buffer + more).len() > 0,
        all_starts(buffer + more)[0] == all_starts(buffer)[0],
{
    lemma_earliest_candidate(buffer);
    let p = all_starts(buffer)[0].0;
    let longer = buffer + more;
    assert forall|j: int| 0 <= j < p implies start_at(longer, j) is None by {
        lemma_start_in_extension(buffer, more, p, j);
    }
    lemma_start_in_extension(buffer, more, p, p);
    lemma_candidate_at_first_start(longer, p);
}

/// The format whose start signature opens `buffer`, the JPEG signature tried
/// first; `None` where the buffer opens with neither.
pub fn match_start(buffer: &[u8]) -> (tag: Option<FileType>)
    ensures
        tag == start_at(buffer@, 0),
{
    assert(JPEG_START@ =~= jpeg_start());
    assert(RW2_START@ =~= rw2_start());
    if matches_at(buffer, JPEG_START.as_slice(), 0) {
        Some(FileType::Jpeg)
    } else if matches_at(buffer, RW2_START.as_slice(), 0) {
        Some(FileType::Rw2)
    } else {
        None
    }
}

/// The lowest index at which a start signature of either format lies in
/// `buffer`, or `None` where none lies in it.
pub fn find_next_start(buffer: &[u8]) -> (found: Option<usize>)
    ensures
        match found {
            Some(i) => first_start_at(buffer@, i as int),
            None => forall|j: int| start_at(buffer@, j) is None,
        },
        match found {
            Some(i) => next_start(buffer@) == Some(i as int),
            None => next_start(buffer@) is None,
        },
{
    assert(JPEG_START@ =~= jpeg_start());
    assert(RW2_START@ =~= rw2_start());
    let len: usize = buffer.len();
    let mut i: usize = 0;
    while i < len
        invariant
            len == buffer@.len(),
            i <= len,
            JPEG_START@ == jpeg_start(),
            RW2_START@ == rw2_start(),
            forall|j: int| 0 <= j < i ==> start_at(buffer@, j) is None,
        decreases len - i,
    {
        if matches_at(buffer, JPEG_START.as_slice(), i) || matches_at(
            buffer,
            RW2_START.as_slice(),
            i,
        ) {
            proof {
                lemma_first_start_is_next_start(buffer@, i as int);
            }
            return Some(i);
        }
        i += 1;
    }
    None
}

/// An index that satisfies `first_start_at` is the value of `next_start`.
pub proof fn lemma_first_start_is_next_start(buffer: Seq<u8>, i: int)
    requires
        first_start_at(buffer, i),
    ensures
        next_start(buffer) == Some(i),
{
    let c = choose|c: int| first_start_at(buffer, c);
    assert(first_start_at(buffer, c));
    if c < i {
        assert(start_at(buffer, c) is None);
    } else if i < c {
        assert(start_at(buffer, i) is None);
    }
}

/// The candidates of `buffer`: the first JPEG start and the first RW2 start,
/// as far as the buffer holds them, in ascending order of position. The result
/// is empty where the buffer holds neither signature.
pub fn find_all_starts(buffer: &[u8]) -> (results: Vec<Candidate>)
    ensures
        positions(results@) == all_starts(buffer@),
        results@.len() <= 2,
        forall|i: int, j: int| 0 <= i < j < results@.len() ==> results@[i].0 < results@[j].0,
        forall|i: int|
            0 <= i < results@.len() ==> results@[i].0 < buffer@.len() && start_at(
                buffer@,
                results@[i].0 as int,
            ) == Some(results@[i].1),
{
    assert(JPEG_START@ =~= jpeg_start());
    assert(RW2_START@ =~= rw2_start());
    let jpeg = find_signature(buffer, JPEG_START.as_slice());
    let rw2 = find_signature(buffer, RW2_START.as_slice());
    let mut results: Vec<Candidate> = Vec::new();
    match (jpeg, rw2) {
        (None, None) => {},
        (Some(a), None) => {
            results.push((a, FileType::Jpeg));
        },
        (None, Some(b)) => {
            results.push((b, FileType::Rw2));
        },
        (Some(a), Some(b)) => {
            if a <= b {
                results.push((a, FileType::Jpeg));
                results.push((b, FileType::Rw2));
            } else {
                results.push((b, FileType::Rw2));
                results.push((a, FileType::Jpeg));
            }
        },
    }
    proof {
        assert(positions(results@) =~= all_starts(buffer@));
        lemma_all_starts_ascending(buffer@);
    }
    results
}

} // verus!
