//! Carving a buffer that is held whole, by start signatures alone: every file
//! runs from its start signature up to the next start signature of either
//! format, the last one up to the buffer's end. No end marker is looked for.

use vstd::prelude::*;
use crate::scanner::{find_next_start, first_start_at, match_start, start_at, FileType};
use crate::signature::{jpeg_start, lemma_occurs_in_suffix, rw2_start};

verus! {

/// A file inside a buffer: it runs from index `start` up to, and not
/// including, index `end`.
#[derive(Debug, Clone, Copy, PartialEq, Eq)]
pub struct Span {
    pub start: usize,
    pub end: usize,
    pub file_type: FileType,
}

/// `spans` are the files of `buffer`, in their order, as start signatures
/// delimit them:
/// - the first file starts at the first start signature of the buffer, and
///   there is no file where there is no start signature;
/// - every file starts at a start signature and has its format;
/// - no start signature lies inside a file behind its first byte;
/// - every file but the last ends where the next one starts, and the last
///   ends where the buffer ends.
pub open spec fn swept(buffer: Seq<u8>, spans: Seq<Span>) -> bool {
    &&& spans.len() == 0 ==> forall|p: int| start_at(buffer, p) is None
    &&& spans.len() > 0 ==> first_start_at(buffer, spans[0].start as int) && spans.last().end
        == buffer.len()
    &&& forall|i: int|
        0 <= i < spans.len() ==> {
            &&& start_at(buffer, (#[trigger] spans[i]).start as int) == Some(spans[i].file_type)
            &&& spans[i].start < spans[i].end <= buffer.len()
            &&& forall|p: int|
                spans[i].start < p < spans[i].end ==> start_at(buffer, p) is None
        }
    &&& forall|i: int, j: int|
        0 <= i < spans.len() && j == i + 1 && j < spans.len() ==> (#[trigger] spans[i]).end == (
        #[trigger] spans[j]).start
}

/// A start signature lies in what is left of `buffer` behind its first `k`
/// bytes exactly where it lies in `buffer`, `k` places further on.
pub proof fn lemma_start_in_suffix(buffer: Seq<u8>, k: int, i: int)
    requires
        0 <= k <= buffer.len(),
        0 <= i,
    ensures
        start_at(buffer.skip(k), i) == start_at(buffer, i + k),
{
    lemma_occurs_in_suffix(buffer, jpeg_start(), k, i);
    lemma_occurs_in_suffix(buffer, rw2_start(), k, i);
}

/// Two lists of files that start signatures delimit in the same buffer agree
/// in their file at index `i`.
pub proof fn lemma_swept_agree(buffer: Seq<u8>, a: Seq<Span>, b: Seq<Span>, i: int)
    requires
        swept(buffer, a),
        swept(buffer, b),
        0 <= i < a.len(),
    ensures
        i < b.len(),
        a[i] == b[i],
    decreases i,
{
    if i == 0 {
        assert(start_at(buffer, a[0].start as int) is Some);
        if a[0].start < b[0].start {
            assert(start_at(buffer, a[0].start as int) is None);
        } else if b[0].start < a[0].start {
            assert(start_at(buffer, b[0].start as int) is None);
        }
    } else {
        lemma_swept_agree(buffer, a, b, i - 1);
        assert(a[i - 1].end == a[i].start);
        assert(start_at(buffer, a[i].start as int) is Some);
        if b.len() == i {
            assert(b.last() == b[i - 1]);
        }
        assert(b[i - 1].end == b[i].start);
    }
    // The two files start at the same place; they end at the same place too.
    assert(a[i].start == b[i].start);
    if a[i].end < b[i].end {
        if i + 1 < a.len() {
            assert(a[i].end == a[i + 1].start);
            assert(start_at(buffer, a[i + 1].start as int) is Some);
        } else {
            assert(a.last() == a[i]);
        }
    } else if b[i].end < a[i].end {
        if i + 1 < b.len() {
            assert(b[i].end == b[i + 1].start);
            assert(start_at(buffer, b[i + 1].start as int) is Some);
        } else {
            assert(b.last() == b[i]);
        }
    }
}

/// Start signatures delimit the files of a buffer in one way only.
pub proof fn lemma_swept_is_unique(buffer: Seq<u8>, a: Seq<Span>, b: Seq<Span>)
    requires
        swept(buffer, a),
        swept(buffer, b),
    ensures
        a == b,
{
    assert forall|i: int| 0 <= i < a.len() implies i < b.len() && #[trigger] a[i] == b[i] by {
        lemma_swept_agree(buffer, a, b, i);
    }
    if a.len() > 0 {
        lemma_swept_agree(buffer, a, b, a.len() - 1);
    }
    if b.len() > 0 {
        lemma_swept_agree(buffer, b, a, b.len() - 1);
    }
    assert(a =~= b);
}

/// The files of a swept buffer lie one behind the other without a gap, from
/// the first start signature to the buffer's end, and each is at least two
/// bytes long.
pub proof fn lemma_swept_covers(buffer: Seq<u8>, spans: Seq<Span>, i: int, j: int)
    requires
        swept(buffer, spans),
        0 <= i <= j < spans.len(),
    ensures
        spans[i].start + 2 <= spans[i].end,
        i < j ==> spans[i].end <= spans[j].start,
    decreases j - i,
{
    assert(start_at(buffer, spans[i].start as int) is Some);
    if spans[i].end < buffer.len() {
        if i + 1 < spans.len() {
            assert(spans[i].end == spans[i + 1].start);
        } else {
            assert(spans.last() == spans[i]);
        }
    }
    if i < j {
        assert(spans[i].end == spans[i + 1].start);
        lemma_swept_covers(buffer, spans, i + 1, j);
    }
}

/// The files of `buffer` as start signatures delimit them. The contract
/// admits one result only, as `lemma_swept_is_unique` shows.
pub fn sweep(buffer: &[u8]) -> (spans: Vec<Span>)
    ensures
        swept(buffer@, spans@),
{
    let len: usize = buffer.len();
    let mut spans: Vec<Span> = Vec::new();
    let mut pos: usize = 0;
    while pos < len
        invariant
            len == buffer@.len(),
            pos <= len,
            spans@.len() == 0 ==> forall|p: int| 0 <= p < pos ==> start_at(buffer@, p) is None,
            spans@.len() > 0 ==> first_start_at(buffer@, spans@[0].start as int)
                && spans@.last().end == pos && (pos == len || start_at(buffer@, pos as int)
                is Some),
            forall|i: int|
                0 <= i < spans@.len() ==> {
                    &&& start_at(buffer@, (#[trigger] spans@[i]).start as int) == Some(
                        spans@[i].file_type,
                    )
                    &&& spans@[i].start < spans@[i].end <= len
                    &&& forall|p: int|
                        spans@[i].start < p < spans@[i].end ==> start_at(buffer@, p) is None
                },
            forall|i: int, j: int|
                0 <= i < spans@.len() && j == i + 1 && j < spans@.len() ==> (
                #[trigger] spans@[i]).end == (#[trigger] spans@[j]).start,
        decreases len - pos,
    {
        let here = vstd::slice::slice_subrange(buffer, pos, len);
        proof {
            assert(here@ =~= buffer@.skip(pos as int));
            lemma_start_in_suffix(buffer@, pos as int, 0);
        }
        match match_start(here) {
            Some(file_type) => {
                let behind = vstd::slice::slice_subrange(buffer, pos + 1, len);
                let found = find_next_start(behind);
                let end: usize = match found {
                    Some(offset) => pos + 1 + offset,
                    None => len,
                };
                proof {
                    assert(behind@ =~= buffer@.skip(pos + 1));
                    assert forall|p: int| pos < p < end implies start_at(buffer@, p) is None by {
                        lemma_start_in_suffix(buffer@, pos + 1, p - pos - 1);
                    }
                    if let Some(offset) = found {
                        lemma_start_in_suffix(buffer@, pos + 1, offset as int);
                    }
                }
                let ghost before = spans@;
                spans.push(Span { start: pos, end, file_type });
                proof {
                    assert forall|i: int| 0 <= i < spans@.len() implies {
                        &&& start_at(buffer@, (#[trigger] spans@[i]).start as int) == Some(
                            spans@[i].file_type,
                        )
                        &&& spans@[i].start < spans@[i].end <= len
                        &&& forall|p: int|
                            spans@[i].start < p < spans@[i].end ==> start_at(buffer@, p) is None
                    } by {
                        if i < before.len() {
                            assert(spans@[i] == before[i]);
                        }
                    }
                    assert forall|i: int, j: int|
                        0 <= i < spans@.len() && j == i + 1 && j < spans@.len() implies (
                    #[trigger] spans@[i]).end == (#[trigger] spans@[j]).start by {
                        assert(spans@[i] == before[i]);
                        if j < before.len() {
                            assert(spans@[j] == before[j]);
                        } else {
                            assert(before.last() == before[i]);
                        }
                    }
                    if before.len() > 0 {
                        assert(spans@[0] == before[0]);
                    }
                }
                pos = end;
            },
            None => {
                pos += 1;
            },
        }
    }
    spans
}

} // verus!
