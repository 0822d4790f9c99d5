//! Byte-pattern search over a memory image.
//!
//! A pattern is a byte string in which the byte `0xFF` is a wildcard: it
//! accepts any byte of the image. Every other pattern byte accepts only
//! itself. A scan reports the lowest offset at which the whole pattern is
//! accepted.
use rayon::iter::IndexedParallelIterator;
use rayon::slice::ParallelSlice;
use vstd::prelude::*;

verus! {

/// The pattern byte that accepts any image byte.
pub const WILDCARD: u8 = 0xFF;

/// True when the pattern byte `p` accepts the image byte `b`.
pub open spec fn byte_accepts(p: u8, b: u8) -> bool {
    p == WILDCARD || p == b
}

/// True when `window` has the length of `pattern` and every pattern byte
/// accepts the image byte at its position.
pub open spec fn window_accepted(window: Seq<u8>, pattern: Seq<u8>) -> bool {
    &&& window.len() == pattern.len()
    &&& forall|i: int| 0 <= i < pattern.len() ==> #[trigger] byte_accepts(pattern[i], window[i])
}

/// True when `pattern` fits into `image` at `offset` and is accepted there.
pub open spec fn matches_at(image: Seq<u8>, pattern: Seq<u8>, offset: int) -> bool {
    &&& 0 <= offset
    &&& offset + pattern.len() <= image.len()
    &&& window_accepted(image.subrange(offset, offset + pattern.len()), pattern)
}

/// True when `offset` is the lowest offset at which `pattern` matches `image`.
pub open spec fn is_first_match(image: Seq<u8>, pattern: Seq<u8>, offset: int) -> bool {
    &&& matches_at(image, pattern, offset)
    &&& forall|j: int| 0 <= j < offset ==> !#[trigger] matches_at(image, pattern, j)
}

/// True when `pattern` matches `image` at no offset.
pub open spec fn no_match(image: Seq<u8>, pattern: Seq<u8>) -> bool {
    forall|j: int| !#[trigger] matches_at(image, pattern, j)
}

/// What a scan of `image` for `pattern` reports: the first matching offset,
/// or `None` when the pattern matches nowhere.
pub open spec fn scan_result(image: Seq<u8>, pattern: Seq<u8>, found: Option<usize>) -> bool {
    match found {
        Some(offset) => is_first_match(image, pattern, offset as int),
        None => no_match(image, pattern),
    }
}

/// Tells whether `pattern` accepts `window` (see `window_accepted`).
pub fn window_matches(window: &[u8], pattern: &[u8]) -> (accepted: bool)
    ensures
        accepted == window_accepted(window@, pattern@),
{
    if window.len() != pattern.len() {
        return false;
    }
    let mut i: usize = 0;
    while i < pattern.len()
        invariant
            window@.len() == pattern@.len(),
            i <= pattern@.len(),
            forall|k: int| 0 <= k < i ==> #[trigger] byte_accepts(pattern@[k], window@[k]),
        decreases pattern@.len() - i,
    {
        let p = pattern[i];
        if p != WILDCARD && p != window[i] {
            assert(!byte_accepts(pattern@[i as int], window@[i as int]));
            return false;
        }
        i = i + 1;
    }
    true
}

/// Runs rayon's `par_windows(pattern.len())` over `image` and
/// `position_first` with `window_matches` as the predicate.
///
/// rayon's source shows that `par_windows(n)` yields the windows
/// `image[i..i + n]` for `i` in `0..image.len() - (n - 1)` (none when the image
/// is shorter than `n`) and asserts `n >= 1`; `position_first` returns the
/// lowest index whose window satisfies the predicate, or `None`. The contract
/// says exactly that over `window_accepted`, the predicate's own `ensures`.
#[verifier::external_body]
fn first_accepted_window(image: &[u8], pattern: &[u8]) -> (found: Option<usize>)
    requires
        pattern@.len() >= 1,
    ensures
        scan_result(image@, pattern@, found),
{
    image.par_windows(pattern.len()).position_first(|window| window_matches(window, pattern))
}

/// Scans `image` for `pattern` and returns the offset of the first match.
///
/// The pattern must not be empty (the windowed search asserts a window of at
/// least one byte).
pub fn scan_bytes(image: &[u8], pattern: &[u8]) -> (found: Option<usize>)
    requires
        pattern@.len() >= 1,
    ensures
        scan_result(image@, pattern@, found),
        found matches Some(offset) ==> offset + pattern@.len() <= image@.len(),
{
    first_accepted_window(image, pattern)
}

/// Scanning is deterministic: at most one offset is the first match.
pub proof fn lemma_first_match_unique(image: Seq<u8>, pattern: Seq<u8>, a: int, b: int)
    requires
        is_first_match(image, pattern, a),
        is_first_match(image, pattern, b),
    ensures
        a == b,
{
    if a < b {
        assert(!matches_at(image, pattern, a));
    } else if b < a {
        assert(!matches_at(image, pattern, b));
    }
}

/// A pattern made only of wildcards matches at offset 0 of any image at least
/// as long as the pattern.
pub proof fn lemma_all_wildcards_match_at_start(image: Seq<u8>, pattern: Seq<u8>)
    requires
        pattern.len() <= image.len(),
        forall|i: int| 0 <= i < pattern.len() ==> pattern[i] == WILDCARD,
    ensures
        is_first_match(image, pattern, 0),
{
    let w = image.subrange(0, pattern.len() as int);
    assert forall|i: int| 0 <= i < pattern.len() implies #[trigger] byte_accepts(pattern[i], w[i]) by {}
}

/// A pattern without wildcards matches at an offset exactly when the image
/// holds the pattern's bytes there.
pub proof fn lemma_literal_pattern_matches_equal_bytes(image: Seq<u8>, pattern: Seq<u8>, offset: int)
    requires
        forall|i: int| 0 <= i < pattern.len() ==> pattern[i] != WILDCARD,
        0 <= offset,
        offset + pattern.len() <= image.len(),
    ensures
        matches_at(image, pattern, offset) <==> image.subrange(offset, offset + pattern.len()) == pattern,
{
    let w = image.subrange(offset, offset + pattern.len());
    if matches_at(image, pattern, offset) {
        assert forall|i: int| 0 <= i < pattern.len() implies w[i] == pattern[i] by {
            assert(byte_accepts(pattern[i], w[i]));
        }
        assert(w =~= pattern);
    }
    if w == pattern {
        assert forall|i: int| 0 <= i < pattern.len() implies #[trigger] byte_accepts(pattern[i], w[i]) by {}
    }
}

/// A pattern matches at an offset exactly when it fits in the image there
/// and each of its bytes is `0xFF` or equals the image byte it lies over.
pub proof fn lemma_match_is_bytewise(image: Seq<u8>, pattern: Seq<u8>, offset: int)
    ensures
        matches_at(image, pattern, offset) <==> (0 <= offset && offset + pattern.len() <= image.len()
            && forall|i: int|
            0 <= i < pattern.len() ==> pattern[i] == 0xFF || #[trigger] pattern[i] == image[offset
                + i]),
{
    if 0 <= offset && offset + pattern.len() <= image.len() {
        let w = image.subrange(offset, offset + pattern.len());
        if matches_at(image, pattern, offset) {
            assert forall|i: int| 0 <= i < pattern.len() implies pattern[i] == 0xFF || #[trigger] pattern[i]
                == image[offset + i] by {
                assert(byte_accepts(pattern[i], w[i]));
            }
        }
        if forall|i: int|
            0 <= i < pattern.len() ==> pattern[i] == 0xFF || #[trigger] pattern[i] == image[offset + i] {
            assert forall|i: int| 0 <= i < pattern.len() implies #[trigger] byte_accepts(pattern[i], w[i]) by {
                assert(pattern[i] == 0xFF || pattern[i] == image[offset + i]);
            }
        }
    }
}

} // verus!

