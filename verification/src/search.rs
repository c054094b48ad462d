//! Searching bytes for bytes.

use vstd::prelude::*;

verus! {

/// `needle` stands in `haystack` at position `i`.
pub open spec fn stands_at(haystack: Seq<u8>, needle: Seq<u8>, i: int) -> bool {
    0 <= i && i + needle.len() <= haystack.len() && haystack.subrange(i, i + needle.len())
        == needle
}

/// `needle` is not empty and stands somewhere in `haystack`.
pub open spec fn found(haystack: Seq<u8>, needle: Seq<u8>) -> bool {
    needle.len() > 0 && exists|i: int| stands_at(haystack, needle, i)
}

/// No byte of `needle` strictly between the position `skip` before its end and its last byte
/// is `byte`.
spec fn clear_skip(needle: Seq<u8>, byte: int, skip: int) -> bool {
    forall|j: int|
        needle.len() - 1 - skip < j < needle.len() - 1 && 0 <= j ==> #[trigger] needle[j] != byte
}

/// For each byte, how far the needle may move on when that byte stands under its last one.
fn skips(needle: &[u8]) -> (r: Vec<usize>)
    requires
        needle@.len() > 0,
    ensures
        r@.len() == 256,
        forall|b: int| 0 <= b < 256 ==> 1 <= #[trigger] r@[b] <= needle@.len(),
        forall|b: int| 0 <= b < 256 ==> clear_skip(needle@, b, #[trigger] r@[b] as int),
{
    let m: usize = needle.len();
    let mut skip: Vec<usize> = Vec::new();
    let mut k: usize = 0;
    while k < 256
        invariant
            k <= 256,
            skip@.len() == k,
            forall|b: int| 0 <= b < k ==> #[trigger] skip@[b] == m,
        decreases 256 - k,
    {
        skip.push(m);
        k += 1;
    }
    let mut i: usize = 0;
    while i < m - 1
        invariant
            m == needle@.len(),
            m > 0,
            i <= m - 1,
            skip@.len() == 256,
            forall|b: int| 0 <= b < 256 ==> 1 <= #[trigger] skip@[b] <= m,
            forall|b: int, j: int|
                0 <= b < 256 && m - 1 - #[trigger] skip@[b] < j < i && 0 <= j
                    ==> #[trigger] needle@[j] != b,
        decreases m - i,
    {
        let ghost before = skip@;
        skip.set(needle[i] as usize, m - 1 - i);
        i += 1;
    }
    skip
}

fn matches_at(haystack: &[u8], needle: &[u8], offset: usize) -> (r: bool)
    requires
        offset + needle@.len() <= haystack@.len(),
    ensures
        r == stands_at(haystack@, needle@, offset as int),
{
    let n: usize = haystack.len();
    let mut k: usize = 0;
    while k < needle.len()
        invariant
            n == haystack@.len(),
            k <= needle@.len(),
            offset + needle@.len() <= haystack@.len(),
            forall|j: int| 0 <= j < k ==> haystack@[offset + j] == needle@[j],
        decreases needle@.len() - k,
    {
        if haystack[offset + k] != needle[k] {
            assert(haystack@.subrange(offset as int, offset + needle@.len())[k as int]
                != needle@[k as int]);
            return false;
        }
        k += 1;
    }
    assert(haystack@.subrange(offset as int, offset + needle@.len()) =~= needle@);
    true
}

/// Whether `needle`, which must not be empty, stands in `haystack`.
///
/// The byte under the needle's last one says how far the needle can move on: to its own last
/// occurrence in the needle before the end, or past it altogether.
pub fn contains(haystack: &[u8], needle: &[u8]) -> (r: bool)
    ensures
        r == found(haystack@, needle@),
{
    if needle.len() == 0 {
        return false;
    }
    let n: usize = haystack.len();
    let m: usize = needle.len();
    if n < m {
        return false;
    }
    let last: u8 = needle[m - 1];
    let skip = skips(needle);
    let mut offset: usize = 0;
    while offset <= n - m
        invariant
            n == haystack@.len(),
            0 < m <= n,
            m == needle@.len(),
            last == needle@[m - 1],
            skip@.len() == 256,
            forall|b: int| 0 <= b < 256 ==> 1 <= #[trigger] skip@[b] <= m,
            forall|b: int| 0 <= b < 256 ==> clear_skip(needle@, b, #[trigger] skip@[b] as int),
            offset <= n,
            forall|i: int| 0 <= i < offset ==> !stands_at(haystack@, needle@, i),
        decreases n - offset,
    {
        let c: u8 = haystack[offset + m - 1];
        if c == last && matches_at(haystack, needle, offset) {
            return true;
        }
        proof {
            let whole = haystack@.subrange(offset as int, offset + m);
            assert(whole[m - 1] == c);
            let s = skip@[c as int];
            assert forall|i: int| offset < i < offset + s implies !stands_at(
                haystack@,
                needle@,
                i,
            ) by {
                let j = offset + m - 1 - i;
                if stands_at(haystack@, needle@, i) {
                    assert(haystack@.subrange(i, i + m)[j] == c);
                    assert(needle@[j] == c);
                    assert(clear_skip(needle@, c as int, s as int));
                }
            }
        }
        offset += skip[c as usize];
    }
    false
}

/// Bytes are found wherever they stand, and only in what is at least as long; nothing is never
/// found.
pub proof fn law_bytes_are_found_where_they_stand(before: Seq<u8>, needle: Seq<u8>, after: Seq<u8>)
    ensures
        needle.len() > 0 ==> found(before + needle + after, needle),
        needle.len() == 0 ==> !found(before, needle),
        before.len() < needle.len() ==> !found(before, needle),
{
    let whole = before + needle + after;
    let n = before.len() as int;
    assert(whole.subrange(n, n + needle.len()) =~= needle);
    assert(stands_at(whole, needle, n));
}

} // verus!
