//! Signature matcher: where a fixed byte pattern occurs in a buffer.

use vstd::prelude::*;

verus! {

/// The bytes that open a JPEG file.
pub const JPEG_START: [u8; 2] = [0xFF, 0xD8];

/// The bytes that close a JPEG file.
pub const JPEG_END: [u8; 2] = [0xFF, 0xD9];

/// The bytes that open an RW2 file.
pub const RW2_START: [u8; 4] = [0x49, 0x49, 0x2A, 0x00];

/// The two bytes that open a JPEG file.
pub open spec fn jpeg_start() -> Seq<u8> {
    seq![0xFFu8, 0xD8u8]
}

/// The two bytes that close a JPEG file.
pub open spec fn jpeg_end() -> Seq<u8> {
    seq![0xFFu8, 0xD9u8]
}

/// The four bytes that open an RW2 file. An RW2 file has no closing marker.
pub open spec fn rw2_start() -> Seq<u8> {
    seq![0x49u8, 0x49u8, 0x2Au8, 0x00u8]
}

/// `pattern` lies in `buffer` at index `i`: `i` is an index of the buffer, the
/// pattern fits between `i` and the buffer's end, and the bytes from `i` on
/// are those of the pattern.
pub open spec fn occurs_at(buffer: Seq<u8>, pattern: Seq<u8>, i: int) -> bool {
    &&& 0 <= i < buffer.len()
    &&& i + pattern.len() <= buffer.len()
    &&& buffer.subrange(i, i + pattern.len()) =~= pattern
}

/// `pattern` lies in `buffer` at `i` and nowhere before `i`.
pub open spec fn first_at(buffer: Seq<u8>, pattern: Seq<u8>, i: int) -> bool {
    &&& occurs_at(buffer, pattern, i)
    &&& forall|j: int| 0 <= j < i ==> !occurs_at(buffer, pattern, j)
}

/// The lowest index at which `pattern` lies in `buffer`, if there is one.
pub open spec fn first_occurrence(buffer: Seq<u8>, pattern: Seq<u8>) -> Option<int> {
    if exists|i: int| first_at(buffer, pattern, i) {
        Some(choose|i: int| first_at(buffer, pattern, i))
    } else {
        None
    }
}

/// An index that satisfies `first_at` is the value of `first_occurrence`.
pub proof fn lemma_first_at_is_first_occurrence(buffer: Seq<u8>, pattern: Seq<u8>, i: int)
    requires
        first_at(buffer, pattern, i),
    ensures
        first_occurrence(buffer, pattern) == Some(i),
{
    let c = choose|c: int| first_at(buffer, pattern, c);
    assert(first_at(buffer, pattern, c));
    if c < i {
        assert(!occurs_at(buffer, pattern, c));
    } else if i < c {
        assert(!occurs_at(buffer, pattern, i));
    }
}

/// A first occurrence is an occurrence with none before it, and lies inside
/// the buffer.
pub proof fn lemma_first_occurrence_in_range(buffer: Seq<u8>, pattern: Seq<u8>)
    ensures
        first_occurrence(buffer, pattern) matches Some(i) ==> first_at(buffer, pattern, i) && 0
            <= i < buffer.len(),
{
}

/// Where the pattern lies nowhere, `first_occurrence` is `None`, and the other
/// way round.
pub proof fn lemma_first_occurrence_none(buffer: Seq<u8>, pattern: Seq<u8>)
    ensures
        first_occurrence(buffer, pattern) is None <==> forall|j: int|
            !occurs_at(buffer, pattern, j),
{
    if exists|j: int| occurs_at(buffer, pattern, j) {
        let j = choose|j: int| occurs_at(buffer, pattern, j);
        lemma_least_occurrence(buffer, pattern, j);
    }
}

/// Below any occurrence there is a first one.
pub proof fn lemma_least_occurrence(buffer: Seq<u8>, pattern: Seq<u8>, j: int)
    requires
        occurs_at(buffer, pattern, j),
    ensures
        exists|i: int| 0 <= i <= j && first_at(buffer, pattern, i),
    decreases j,
{
    if exists|k: int| 0 <= k < j && occurs_at(buffer, pattern, k) {
        let k = choose|k: int| 0 <= k < j && occurs_at(buffer, pattern, k);
        lemma_least_occurrence(buffer, pattern, k);
    } else {
        assert(first_at(buffer, pattern, j));
    }
}

/// An occurrence in what is left of `buffer` behind its first `k` bytes is an
/// occurrence in `buffer`, `k` places further on, and the other way round.
pub proof fn lemma_occurs_in_suffix(buffer: Seq<u8>, pattern: Seq<u8>, k: int, i: int)
    requires
        0 <= k <= buffer.len(),
    ensures
        occurs_at(buffer.skip(k), pattern, i) <==> 0 <= i && occurs_at(buffer, pattern, i + k),
{
    let suffix = buffer.skip(k);
    if 0 <= i < suffix.len() && i + pattern.len() <= suffix.len() {
        assert(suffix.subrange(i, i + pattern.len()) =~= buffer.subrange(
            i + k,
            i + k + pattern.len(),
        ));
    }
}

/// An occurrence that ends within the first `n` bytes of `buffer` is an
/// occurrence in those bytes alone, and the other way round.
pub proof fn lemma_occurs_in_prefix(buffer: Seq<u8>, pattern: Seq<u8>, n: int, i: int)
    requires
        0 <= n <= buffer.len(),
    ensures
        occurs_at(buffer.subrange(0, n), pattern, i) <==> i < n && i + pattern.len() <= n
            && occurs_at(buffer, pattern, i),
{
    let prefix = buffer.subrange(0, n);
    if 0 <= i < n && i + pattern.len() <= n {
        assert(prefix.subrange(i, i + pattern.len()) =~= buffer.subrange(i, i + pattern.len()));
    }
}

/// Appending bytes to `buffer` neither adds nor removes an occurrence that
/// begins and ends inside `buffer`.
pub proof fn lemma_occurs_in_extension(buffer: Seq<u8>, more: Seq<u8>, pattern: Seq<u8>, i: int)
    requires
        i < buffer.len(),
        i + pattern.len() <= buffer.len(),
    ensures
        occurs_at(buffer + more, pattern, i) <==> occurs_at(buffer, pattern, i),
{
    let longer = buffer + more;
    if 0 <= i {
        assert(longer.subrange(i, i + pattern.len()) =~= buffer.subrange(i, i + pattern.len()));
    }
}

/// A first occurrence stays the first one when bytes are appended.
pub proof fn lemma_first_occurrence_in_extension(
    buffer: Seq<u8>,
    more: Seq<u8>,
    pattern: Seq<u8>,
)
    ensures
        first_occurrence(buffer, pattern) matches Some(i) ==> first_occurrence(
            buffer + more,
            pattern,
        ) == Some(i),
{
    if let Some(i) = first_occurrence(buffer, pattern) {
        assert(first_at(buffer, pattern, i));
        lemma_occurs_in_extension(buffer, more, pattern, i);
        assert forall|j: int| 0 <= j < i implies !occurs_at(buffer + more, pattern, j) by {
            lemma_occurs_in_extension(buffer, more, pattern, j);
        }
        lemma_first_at_is_first_occurrence(buffer + more, pattern, i);
    }
}

/// The first occurrence moved `k` places further on.
pub open spec fn shifted(found: Option<int>, k: int) -> Option<int> {
    match found {
        Some(i) => Some(i + k),
        None => None,
    }
}

/// Where `pattern` lies nowhere before index `k` of `buffer`, its first
/// occurrence in `buffer` is its first occurrence behind the first `k` bytes.
pub proof fn lemma_first_occurrence_in_suffix(buffer: Seq<u8>, pattern: Seq<u8>, k: int)
    requires
        0 <= k <= buffer.len(),
        forall|j: int| 0 <= j < k ==> !occurs_at(buffer, pattern, j),
    ensures
        first_occurrence(buffer, pattern) == shifted(first_occurrence(buffer.skip(k), pattern), k),
{
    let suffix = buffer.skip(k);
    match first_occurrence(suffix, pattern) {
        Some(i) => {
            assert(first_at(suffix, pattern, i));
            lemma_occurs_in_suffix(buffer, pattern, k, i);
            assert forall|j: int| 0 <= j < i + k implies !occurs_at(buffer, pattern, j) by {
                if j >= k {
                    lemma_occurs_in_suffix(buffer, pattern, k, j - k);
                }
            }
            lemma_first_at_is_first_occurrence(buffer, pattern, i + k);
        },
        None => {
            lemma_first_occurrence_none(suffix, pattern);
            assert forall|j: int| !occurs_at(buffer, pattern, j) by {
                if j >= k {
                    lemma_occurs_in_suffix(buffer, pattern, k, j - k);
                }
            }
            lemma_first_occurrence_none(buffer, pattern);
        },
    }
}

/// Whether `signature` lies in `buffer` at index `i`.
pub fn matches_at(buffer: &[u8], signature: &[u8], i: usize) -> (hit: bool)
    ensures
        hit == occurs_at(buffer@, signature@, i as int),
{
    let n: usize = signature.len();
    let len: usize = buffer.len();
    if i >= len || n > len - i {
        return false;
    }
    let ghost window = buffer@.subrange(i as int, i + n);
    let mut k: usize = 0;
    while k < n
        invariant
            n == signature@.len(),
            len == buffer@.len(),
            i < len,
            i + n <= len,
            k <= n,
            window == buffer@.subrange(i as int, i + n),
            forall|m: int| 0 <= m < k ==> window[m] == signature@[m],
        decreases n - k,
    {
        assert(window[k as int] == buffer@[i + k]);
        if buffer[i + k] != signature[k] {
            return false;
        }
        k += 1;
    }
    true
}

/// The lowest index at which `signature` lies in `buffer`, or `None` where it
/// lies nowhere. A buffer shorter than the signature, and an empty buffer, hold
/// no occurrence.
pub fn find_signature(buffer: &[u8], signature: &[u8]) -> (found: Option<usize>)
    ensures
        match found {
            Some(i) => first_at(buffer@, signature@, i as int),
            None => forall|j: int| !occurs_at(buffer@, signature@, j),
        },
        match found {
            Some(i) => first_occurrence(buffer@, signature@) == Some(i as int),
            None => first_occurrence(buffer@, signature@) is None,
        },
{
    let len: usize = buffer.len();
    let mut i: usize = 0;
    while i < len
        invariant
            len == buffer@.len(),
            i <= len,
            forall|j: int| 0 <= j < i ==> !occurs_at(buffer@, signature@, j),
        decreases len - i,
    {
        if matches_at(buffer, signature, i) {
            proof {
                lemma_first_at_is_first_occurrence(buffer@, signature@, i as int);
            }
            return Some(i);
        }
        i += 1;
    }
    proof {
        lemma_first_occurrence_none(buffer@, signature@);
    }
    None
}

} // verus!
