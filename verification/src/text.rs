//! Text as a sequence of characters: searching, trimming, splitting, replacing and ordering.

use vstd::prelude::*;
use vstd::slice::slice_subrange;

verus! {

/// `String::push` appends one character.
pub assume_specification[ String::push ](s: &mut String, c: char)
    ensures
        final(s)@ == old(s)@.push(c),
;

/// The text that bytes stand for in UTF-8, with what is not UTF-8 replaced.
pub uninterp spec fn lossy_text(bytes: Seq<u8>) -> Seq<char>;

/// All the bytes of the parts, in their order.
pub open spec fn all_bytes(parts: Seq<Seq<u8>>) -> Seq<u8>
    decreases parts.len(),
{
    if parts.len() == 0 {
        seq![]
    } else {
        all_bytes(parts.drop_last()) + parts.last()
    }
}

/// The part of the bytes is the character in UTF-8, or is not UTF-8 and the character is U+FFFD,
/// which stands for such parts.
pub open spec fn is_part(c: char, part: Seq<u8>) -> bool {
    part == vstd::utf8::encode_utf8(seq![c]) || (c == '\u{fffd}' && !vstd::utf8::valid_utf8(part))
}

/// The text is what the bytes stand for, with U+FFFD in the place of what is not UTF-8: the bytes
/// can be cut into one part for each character.
pub open spec fn is_decoding(t: Seq<char>, bytes: Seq<u8>) -> bool {
    exists|parts: Seq<Seq<u8>>| #[trigger] is_cut(t, bytes, parts)
}

pub open spec fn is_cut(t: Seq<char>, bytes: Seq<u8>, parts: Seq<Seq<u8>>) -> bool {
    &&& parts.len() == t.len()
    &&& all_bytes(parts) == bytes
    &&& forall|i: int| 0 <= i < t.len() ==> is_part(#[trigger] t[i], parts[i])
}

/// `String::from_utf8_lossy`: the text is a function of the bytes; where the bytes are UTF-8 it
/// is what they stand for, and where they are not, U+FFFD stands in the place of each sequence
/// that is not. Where such a sequence begins and ends is not stated.
#[verifier::external_body]
pub(crate) fn decode_lossy(bytes: &[u8]) -> (r: String)
    ensures
        r@ == lossy_text(bytes@),
        is_decoding(r@, bytes@),
        vstd::utf8::valid_utf8(bytes@) ==> r@ == vstd::utf8::decode_utf8(bytes@),
{
    String::from_utf8_lossy(bytes).into_owned()
}

/// A string as it is seen through an option.
pub open spec fn opt_text(o: Option<String>) -> Option<Seq<char>> {
    match o {
        Some(s) => Some(s@),
        None => None,
    }
}

/// The characters with the Unicode property `White_Space`.
pub open spec fn is_space(c: char) -> bool {
    let n = c as u32;
    ||| 0x9 <= n <= 0xd
    ||| n == 0x20
    ||| n == 0x85
    ||| n == 0xa0
    ||| n == 0x1680
    ||| 0x2000 <= n <= 0x200a
    ||| n == 0x2028
    ||| n == 0x2029
    ||| n == 0x202f
    ||| n == 0x205f
    ||| n == 0x3000
}

pub fn space(c: char) -> (r: bool)
    ensures
        r == is_space(c),
{
    let n: u32 = c as u32;
    (0x9 <= n && n <= 0xd) || n == 0x20 || n == 0x85 || n == 0xa0 || n == 0x1680 || (0x2000 <= n
        && n <= 0x200a) || n == 0x2028 || n == 0x2029 || n == 0x202f || n == 0x205f || n == 0x3000
}

/// The characters of a string.
pub fn chars_of(s: &str) -> (r: Vec<char>)
    ensures
        r@ == s@,
{
    let mut out: Vec<char> = Vec::new();
    for c in it: s.chars()
        invariant
            it.seq() == s@,
            out@ == s@.take(it.index() as int),
    {
        out.push(c);
    }
    out
}

/// The string made of the given characters.
pub fn text_of(chars: &[char]) -> (r: String)
    ensures
        r@ == chars@,
{
    let mut out = String::new();
    let mut i: usize = 0;
    while i < chars.len()
        invariant
            i <= chars@.len(),
            out@ == chars@.take(i as int),
        decreases chars@.len() - i,
    {
        out.push(chars[i]);
        i += 1;
    }
    assert(chars@.take(chars@.len() as int) == chars@);
    out
}

pub fn same_text(a: &str, b: &str) -> (r: bool)
    ensures
        r == (a@ == b@),
{
    a.to_owned() == b.to_owned()
}

// ---------------------------------------------------------------------------
// Searching
// ---------------------------------------------------------------------------

/// `pattern` stands in `text` at position `i`.
pub open spec fn occurs_at(text: Seq<char>, pattern: Seq<char>, i: int) -> bool {
    0 <= i && i + pattern.len() <= text.len() && text.subrange(i, i + pattern.len()) == pattern
}

/// `pattern` stands somewhere in `text`.
pub open spec fn includes(text: Seq<char>, pattern: Seq<char>) -> bool {
    exists|i: int| occurs_at(text, pattern, i)
}

/// The first position at or after `from` at which `pattern` stands in `text`.
pub open spec fn find_from(text: Seq<char>, pattern: Seq<char>, from: int) -> Option<int>
    decreases text.len() + 1 - from,
{
    if from < 0 || from + pattern.len() > text.len() {
        None
    } else if occurs_at(text, pattern, from) {
        Some(from)
    } else {
        find_from(text, pattern, from + 1)
    }
}

pub proof fn lemma_find_from(text: Seq<char>, pattern: Seq<char>, from: int)
    requires
        0 <= from,
    ensures
        match find_from(text, pattern, from) {
            Some(i) => {
                &&& from <= i
                &&& occurs_at(text, pattern, i)
                &&& forall|j: int| from <= j < i ==> !occurs_at(text, pattern, j)
            },
            None => forall|j: int| from <= j ==> !occurs_at(text, pattern, j),
        },
    decreases text.len() + 1 - from,
{
    if from + pattern.len() <= text.len() && !occurs_at(text, pattern, from) {
        lemma_find_from(text, pattern, from + 1);
    }
}

fn stands_at(text: &[char], pattern: &[char], i: usize) -> (r: bool)
    requires
        i + pattern@.len() <= text@.len(),
    ensures
        r == occurs_at(text@, pattern@, i as int),
{
    let n: usize = text.len();
    let mut k: usize = 0;
    while k < pattern.len()
        invariant
            n == text@.len(),
            k <= pattern@.len(),
            i + pattern@.len() <= text@.len(),
            forall|j: int| 0 <= j < k ==> text@[i + j] == pattern@[j],
        decreases pattern@.len() - k,
    {
        if text[i + k] != pattern[k] {
            assert(text@.subrange(i as int, i + pattern@.len())[k as int] != pattern@[k as int]);
            return false;
        }
        k += 1;
    }
    assert(text@.subrange(i as int, i + pattern@.len()) =~= pattern@);
    true
}

pub fn find(text: &[char], pattern: &[char], from: usize) -> (r: Option<usize>)
    ensures
        text@.len() <= usize::MAX,
        match r {
            Some(i) => find_from(text@, pattern@, from as int) == Some(i as int) && from <= i && i
                + pattern@.len() <= text@.len(),
            None => find_from(text@, pattern@, from as int) is None,
        },
{
    let mut i: usize = from;
    while i <= text.len() && pattern.len() <= text.len() - i
        invariant
            from <= i,
            find_from(text@, pattern@, from as int) == find_from(text@, pattern@, i as int),
        decreases text@.len() + 1 - i,
    {
        if stands_at(text, pattern, i) {
            return Some(i);
        }
        if i == text.len() {
            assert(find_from(text@, pattern@, i + 1) is None);
            return None;
        }
        i += 1;
    }
    None
}

/// Whether `pattern` stands somewhere in `text`.
pub fn has(text: &[char], pattern: &[char]) -> (r: bool)
    ensures
        r == includes(text@, pattern@),
{
    proof {
        lemma_find_from(text@, pattern@, 0);
    }
    match find(text, pattern, 0) {
        Some(_) => true,
        None => {
            assert forall|i: int| !occurs_at(text@, pattern@, i) by {
                if i < 0 {
                } else {
                }
            }
            false
        },
    }
}

/// Whether the string `pattern` stands somewhere in the string `text`.
pub fn has_text(text: &str, pattern: &str) -> (r: bool)
    ensures
        r == includes(text@, pattern@),
{
    has(chars_of(text).as_slice(), chars_of(pattern).as_slice())
}

/// The first position at or after `from` that holds the character `c`.
pub open spec fn index_from(text: Seq<char>, c: char, from: int) -> Option<int>
    decreases text.len() - from,
{
    if from < 0 || from >= text.len() {
        None
    } else if text[from] == c {
        Some(from)
    } else {
        index_from(text, c, from + 1)
    }
}

pub proof fn lemma_index_from(text: Seq<char>, c: char, from: int)
    requires
        0 <= from,
    ensures
        match index_from(text, c, from) {
            Some(i) => {
                &&& from <= i < text.len()
                &&& text[i] == c
                &&& forall|j: int| from <= j < i ==> text[j] != c
            },
            None => forall|j: int| from <= j < text.len() ==> text[j] != c,
        },
    decreases text.len() - from,
{
    if from < text.len() && text[from] != c {
        lemma_index_from(text, c, from + 1);
    }
}

pub fn find_char(text: &[char], c: char, from: usize) -> (r: Option<usize>)
    ensures
        text@.len() <= usize::MAX,
        match r {
            Some(i) => index_from(text@, c, from as int) == Some(i as int) && from <= i
                < text@.len(),
            None => index_from(text@, c, from as int) is None,
        },
{
    let mut i: usize = from;
    while i < text.len()
        invariant
            from <= i,
            index_from(text@, c, from as int) == index_from(text@, c, i as int),
        decreases text@.len() - i,
    {
        if text[i] == c {
            return Some(i);
        }
        i += 1;
    }
    None
}

/// The first position at or after `from` that holds one of `stops`, or the length of the text.
pub open spec fn stop_from(text: Seq<char>, stops: Seq<char>, from: int) -> int
    decreases text.len() - from,
{
    if from < 0 || from >= text.len() {
        text.len() as int
    } else if stops.contains(text[from]) {
        from
    } else {
        stop_from(text, stops, from + 1)
    }
}

/// What stands in `text` before the first of `stops`.
pub open spec fn before_stop(text: Seq<char>, stops: Seq<char>) -> Seq<char> {
    text.take(stop_from(text, stops, 0))
}

pub proof fn lemma_stop_from(text: Seq<char>, stops: Seq<char>, from: int)
    requires
        0 <= from <= text.len(),
    ensures
        from <= stop_from(text, stops, from) <= text.len(),
        forall|j: int| from <= j < stop_from(text, stops, from) ==> !stops.contains(text[j]),
        stop_from(text, stops, from) < text.len() ==> stops.contains(
            text[stop_from(text, stops, from)],
        ),
    decreases text.len() - from,
{
    if from < text.len() && !stops.contains(text[from]) {
        lemma_stop_from(text, stops, from + 1);
    }
}

/// Whether `c` is one of `set`.
pub fn one_of(set: &[char], c: char) -> (r: bool)
    ensures
        r == set@.contains(c),
{
    let mut i: usize = 0;
    while i < set.len()
        invariant
            i <= set@.len(),
            forall|j: int| 0 <= j < i ==> set@[j] != c,
        decreases set@.len() - i,
    {
        if set[i] == c {
            return true;
        }
        i += 1;
    }
    false
}

pub fn head_before<'a>(text: &'a [char], stops: &[char]) -> (r: &'a [char])
    ensures
        r@ == before_stop(text@, stops@),
{
    let mut i: usize = 0;
    while i < text.len() && !one_of(stops, text[i])
        invariant
            i <= text@.len(),
            stop_from(text@, stops@, 0) == stop_from(text@, stops@, i as int),
        decreases text@.len() - i,
    {
        i += 1;
    }
    slice_subrange(text, 0, i)
}

/// Whether the string begins with `prefix`.
pub fn begins_with(s: &str, prefix: &str) -> (r: bool)
    ensures
        r == prefix@.is_prefix_of(s@),
{
    let t = chars_of(s);
    let p = chars_of(prefix);
    if p.len() > t.len() {
        return false;
    }
    stands_at(t.as_slice(), p.as_slice(), 0)
}

// ---------------------------------------------------------------------------
// Trimming
// ---------------------------------------------------------------------------

/// The text without its leading white space.
pub open spec fn trim_left(text: Seq<char>) -> Seq<char>
    decreases text.len(),
{
    if text.len() > 0 && is_space(text[0]) {
        trim_left(text.drop_first())
    } else {
        text
    }
}

/// The text without its trailing white space.
pub open spec fn trim_right(text: Seq<char>) -> Seq<char>
    decreases text.len(),
{
    if text.len() > 0 && is_space(text.last()) {
        trim_right(text.drop_last())
    } else {
        text
    }
}

/// The text without the white space at its two ends.
pub open spec fn trim(text: Seq<char>) -> Seq<char> {
    trim_right(trim_left(text))
}

pub fn trimmed_left<'a>(text: &'a [char]) -> (r: &'a [char])
    ensures
        r@ == trim_left(text@),
{
    let mut i: usize = 0;
    assert(text@.skip(0) =~= text@);
    while i < text.len() && space(text[i])
        invariant
            i <= text@.len(),
            trim_left(text@) == trim_left(text@.skip(i as int)),
        decreases text@.len() - i,
    {
        assert(text@.skip(i as int).drop_first() =~= text@.skip(i + 1));
        i += 1;
    }
    assert(text@.subrange(i as int, text@.len() as int) =~= text@.skip(i as int));
    slice_subrange(text, i, text.len())
}

pub fn trimmed_right<'a>(text: &'a [char]) -> (r: &'a [char])
    ensures
        r@ == trim_right(text@),
{
    let mut n: usize = text.len();
    assert(text@.take(n as int) =~= text@);
    while n > 0 && space(text[n - 1])
        invariant
            n <= text@.len(),
            trim_right(text@) == trim_right(text@.take(n as int)),
        decreases n,
    {
        assert(text@.take(n as int).drop_last() =~= text@.take(n - 1));
        n -= 1;
    }
    assert(text@.subrange(0, n as int) =~= text@.take(n as int));
    slice_subrange(text, 0, n)
}

pub fn trimmed<'a>(text: &'a [char]) -> (r: &'a [char])
    ensures
        r@ == trim(text@),
{
    trimmed_right(trimmed_left(text))
}

/// The string without the white space at its two ends.
pub fn trimmed_text(s: &str) -> (r: String)
    ensures
        r@ == trim(s@),
{
    text_of(trimmed(chars_of(s).as_slice()))
}

// ---------------------------------------------------------------------------
// Lines
// ---------------------------------------------------------------------------

/// A line without the carriage return that may end it.
pub open spec fn strip_return(line: Seq<char>) -> Seq<char> {
    if line.len() > 0 && line.last() == '\r' {
        line.drop_last()
    } else {
        line
    }
}

/// The lines of a text: each ends at a line feed, or a carriage return and a line feed, which are
/// not part of it; what follows the last line feed is a line only where it is not empty.
pub open spec fn text_lines(text: Seq<char>) -> Seq<Seq<char>>
    decreases text.len(),
{
    if text.len() == 0 {
        seq![]
    } else {
        match index_from(text, '\n', 0) {
            Some(i) => if 0 <= i < text.len() {
                seq![strip_return(text.take(i))] + text_lines(text.skip(i + 1))
            } else {
                seq![]
            },
            None => seq![text],
        }
    }
}

/// The character sequences of a list of lines.
pub open spec fn line_views(lines: Seq<Vec<char>>) -> Seq<Seq<char>> {
    lines.map_values(|l: Vec<char>| l@)
}

proof fn lemma_index_shift(text: Seq<char>, c: char, base: int, from: int)
    requires
        0 <= base <= from <= text.len(),
    ensures
        index_from(text.skip(base), c, from - base) == match index_from(text, c, from) {
            Some(i) => Some(i - base),
            None => None,
        },
    decreases text.len() - from,
{
    if from < text.len() {
        assert(text.skip(base)[from - base] == text[from]);
        if text[from] != c {
            lemma_index_shift(text, c, base, from + 1);
        }
    }
}

pub fn lines_of(text: &[char]) -> (r: Vec<Vec<char>>)
    ensures
        line_views(r@) == text_lines(text@),
{
    let mut out: Vec<Vec<char>> = Vec::new();
    let mut start: usize = 0;
    assert(text@.skip(0) =~= text@);
    assert(line_views(out@) + text_lines(text@) =~= text_lines(text@));
    while start < text.len()
        invariant
            start <= text@.len(),
            text_lines(text@) == line_views(out@) + text_lines(text@.skip(start as int)),
        decreases text@.len() - start,
    {
        let ghost rest = text@.skip(start as int);
        let ghost before = out@;
        proof {
            lemma_index_shift(text@, '\n', start as int, start as int);
            lemma_index_from(text@, '\n', start as int);
        }
        match find_char(text, '\n', start) {
            Some(i) => {
                let end: usize = if i > start && text[i - 1] == '\r' {
                    i - 1
                } else {
                    i
                };
                let line = slice_subrange(text, start, end);
                let mut chars: Vec<char> = Vec::new();
                chars.extend_from_slice(line);
                assert(chars@ =~= strip_return(rest.take(i - start)));
                out.push(chars);
                assert(rest.skip(i - start + 1) =~= text@.skip(i + 1));
                assert(line_views(out@) =~= line_views(before).push(chars@));
                assert(line_views(before) + (seq![chars@] + text_lines(text@.skip(i + 1)))
                    =~= line_views(out@) + text_lines(text@.skip(i + 1)));
                start = i + 1;
            },
            None => {
                let line = slice_subrange(text, start, text.len());
                let mut chars: Vec<char> = Vec::new();
                chars.extend_from_slice(line);
                assert(chars@ =~= rest);
                out.push(chars);
                assert(line_views(out@) =~= line_views(before).push(chars@));
                assert(text@.skip(text@.len() as int) =~= Seq::<char>::empty());
                assert(line_views(before) + seq![chars@] =~= line_views(out@) + text_lines(
                    text@.skip(text@.len() as int),
                ));
                start = text.len();
            },
        }
    }
    assert(text@.skip(text@.len() as int) =~= Seq::<char>::empty());
    assert(line_views(out@) + text_lines(Seq::<char>::empty()) =~= line_views(out@));
    out
}

/// What stands in a part of a text stands in the text.
pub proof fn lemma_includes_within(t: Seq<char>, from: int, to: int, pattern: Seq<char>)
    requires
        0 <= from <= to <= t.len(),
        includes(t.subrange(from, to), pattern),
    ensures
        includes(t, pattern),
{
    let i = choose|i: int| occurs_at(t.subrange(from, to), pattern, i);
    assert(t.subrange(from + i, from + i + pattern.len()) =~= t.subrange(from, to).subrange(
        i,
        i + pattern.len(),
    ));
    assert(occurs_at(t, pattern, from + i));
}

/// What stands in a line of a text stands in the text.
pub proof fn lemma_includes_in_line(t: Seq<char>, k: int, pattern: Seq<char>)
    requires
        0 <= k < text_lines(t).len(),
        includes(text_lines(t)[k], pattern),
    ensures
        includes(t, pattern),
    decreases t.len(),
{
    lemma_index_from(t, '\n', 0);
    match index_from(t, '\n', 0) {
        Some(i) => {
            if k == 0 {
                let line = strip_return(t.take(i));
                assert(line =~= t.subrange(0, line.len() as int));
                lemma_includes_within(t, 0, line.len() as int, pattern);
            } else {
                let rest = t.skip(i + 1);
                assert(text_lines(t)[k] == text_lines(rest)[k - 1]);
                lemma_includes_in_line(rest, k - 1, pattern);
                assert(rest =~= t.subrange(i + 1, t.len() as int));
                lemma_includes_within(t, i + 1, t.len() as int, pattern);
            }
        },
        None => {},
    }
}

proof fn lemma_encode_concat(a: Seq<char>, b: Seq<char>)
    ensures
        vstd::utf8::encode_utf8(a + b) == vstd::utf8::encode_utf8(a) + vstd::utf8::encode_utf8(b),
    decreases a.len(),
{
    if a.len() == 0 {
        assert(a + b =~= b);
        assert(vstd::utf8::encode_utf8(a) + vstd::utf8::encode_utf8(b) =~= vstd::utf8::encode_utf8(
            b,
        ));
    } else {
        assert((a + b).drop_first() =~= a.drop_first() + b);
        lemma_encode_concat(a.drop_first(), b);
        let head = vstd::utf8::encode_scalar(a[0] as u32);
        assert(head + (vstd::utf8::encode_utf8(a.drop_first()) + vstd::utf8::encode_utf8(b))
            =~= head + vstd::utf8::encode_utf8(a.drop_first()) + vstd::utf8::encode_utf8(b));
    }
}

/// Where a text stands in another, its UTF-8 bytes stand in the bytes of the other.
pub proof fn lemma_includes_bytes(t: Seq<char>, pattern: Seq<char>) -> (at: int)
    requires
        includes(t, pattern),
    ensures
        crate::search::stands_at(
            vstd::utf8::encode_utf8(t),
            vstd::utf8::encode_utf8(pattern),
            at,
        ),
{
    let i = choose|i: int| occurs_at(t, pattern, i);
    let a = t.take(i);
    let b = t.skip(i + pattern.len());
    assert(t =~= a + pattern + b);
    lemma_encode_concat(a + pattern, b);
    lemma_encode_concat(a, pattern);
    let at = vstd::utf8::encode_utf8(a).len() as int;
    let n = vstd::utf8::encode_utf8(pattern).len();
    assert(vstd::utf8::encode_utf8(t).subrange(at, at + n) =~= vstd::utf8::encode_utf8(pattern));
    at
}

proof fn lemma_all_bytes_concat(a: Seq<Seq<u8>>, b: Seq<Seq<u8>>)
    ensures
        all_bytes(a + b) == all_bytes(a) + all_bytes(b),
    decreases b.len(),
{
    if b.len() == 0 {
        assert(a + b =~= a);
        assert(all_bytes(a) + all_bytes(b) =~= all_bytes(a));
    } else {
        assert((a + b).drop_last() =~= a + b.drop_last());
        lemma_all_bytes_concat(a, b.drop_last());
        assert(all_bytes(a + b) =~= all_bytes(a) + all_bytes(b));
    }
}

/// Parts that are characters in UTF-8 are together the text in UTF-8.
proof fn lemma_encoded_parts(t: Seq<char>, parts: Seq<Seq<u8>>)
    requires
        parts.len() == t.len(),
        forall|i: int| 0 <= i < t.len() ==> #[trigger] parts[i] == vstd::utf8::encode_utf8(seq![t[i]]),
    ensures
        all_bytes(parts) == vstd::utf8::encode_utf8(t),
    decreases t.len(),
{
    if t.len() > 0 {
        let front = t.drop_last();
        assert forall|i: int| 0 <= i < front.len() implies #[trigger] parts.drop_last()[i]
            == vstd::utf8::encode_utf8(seq![front[i]]) by {
            assert(parts[i] == vstd::utf8::encode_utf8(seq![t[i]]));
        }
        lemma_encoded_parts(front, parts.drop_last());
        assert(parts[t.len() - 1] == vstd::utf8::encode_utf8(seq![t[t.len() - 1]]));
        lemma_encode_concat(front, seq![t.last()]);
        assert(t =~= front + seq![t.last()]);
    }
}

/// Bytes in UTF-8 are decoded to what they stand for.
pub proof fn lemma_utf8_is_decoding(bytes: Seq<u8>)
    requires
        vstd::utf8::valid_utf8(bytes),
    ensures
        is_decoding(vstd::utf8::decode_utf8(bytes), bytes),
{
    let t = vstd::utf8::decode_utf8(bytes);
    let parts = t.map_values(|c: char| vstd::utf8::encode_utf8(seq![c]));
    vstd::utf8::decode_utf8_encode_utf8(bytes);
    lemma_encoded_parts(t, parts);
    assert(is_cut(t, bytes, parts));
}

/// Where a text without U+FFFD stands in what bytes are decoded to, its UTF-8 bytes stand in the
/// bytes.
pub proof fn lemma_decoding_includes(t: Seq<char>, bytes: Seq<u8>, pattern: Seq<char>) -> (at: int)
    requires
        is_decoding(t, bytes),
        includes(t, pattern),
        forall|i: int| 0 <= i < pattern.len() ==> #[trigger] pattern[i] != '\u{fffd}',
    ensures
        crate::search::stands_at(bytes, vstd::utf8::encode_utf8(pattern), at),
{
    let parts = choose|parts: Seq<Seq<u8>>| #[trigger] is_cut(t, bytes, parts);
    let i = choose|i: int| occurs_at(t, pattern, i);
    let n = pattern.len() as int;
    let a = parts.take(i);
    let m = parts.subrange(i, i + n);
    let b = parts.skip(i + n);
    assert(parts =~= a + m + b);
    lemma_all_bytes_concat(a + m, b);
    lemma_all_bytes_concat(a, m);
    assert forall|k: int| 0 <= k < n implies #[trigger] m[k] == vstd::utf8::encode_utf8(
        seq![pattern[k]],
    ) by {
        assert(t.subrange(i, i + n)[k] == t[i + k]);
        assert(is_part(t[i + k], parts[i + k]));
    }
    lemma_encoded_parts(pattern, m);
    let at = all_bytes(a).len() as int;
    assert(bytes.subrange(at, at + all_bytes(m).len()) =~= all_bytes(m));
    at
}

// ---------------------------------------------------------------------------
// Replacing and joining
// ---------------------------------------------------------------------------

/// `r` before, between and after the characters of `text`.
pub open spec fn interleaved(text: Seq<char>, r: Seq<char>) -> Seq<char>
    decreases text.len(),
{
    if text.len() == 0 {
        r
    } else {
        r + seq![text[0]] + interleaved(text.drop_first(), r)
    }
}

/// The text with each occurrence of `pattern`, found from left to right without overlap, replaced
/// by `by`; an empty pattern stands at every boundary between characters.
pub open spec fn replaced(text: Seq<char>, pattern: Seq<char>, by: Seq<char>) -> Seq<char>
    decreases text.len(),
{
    if pattern.len() == 0 {
        interleaved(text, by)
    } else {
        match find_from(text, pattern, 0) {
            Some(i) => if 0 <= i && i + pattern.len() <= text.len() {
                text.take(i) + by + replaced(text.skip(i + pattern.len()), pattern, by)
            } else {
                text
            },
            None => text,
        }
    }
}

proof fn lemma_find_shift(text: Seq<char>, pattern: Seq<char>, base: int, from: int)
    requires
        0 <= base <= from <= text.len(),
    ensures
        find_from(text.skip(base), pattern, from - base) == match find_from(text, pattern, from) {
            Some(i) => Some(i - base),
            None => None,
        },
    decreases text.len() - from,
{
    if from + pattern.len() <= text.len() {
        assert(text.skip(base).subrange(from - base, from - base + pattern.len())
            =~= text.subrange(from, from + pattern.len()));
        if !occurs_at(text, pattern, from) && from < text.len() {
            lemma_find_shift(text, pattern, base, from + 1);
        } else if !occurs_at(text, pattern, from) {
            assert(find_from(text, pattern, from + 1) is None);
            assert(find_from(text.skip(base), pattern, from - base + 1) is None);
        }
    }
}

/// The string with each occurrence of `pattern` replaced by `by`.
pub fn replace_text(s: &str, pattern: &str, by: &str) -> (r: String)
    ensures
        r@ == replaced(s@, pattern@, by@),
{
    let text = chars_of(s);
    let pat = chars_of(pattern);
    let n: usize = text.len();
    let mut out = String::new();
    let mut start: usize = 0;
    assert(text@.skip(0) =~= text@);
    if pat.len() == 0 {
        assert(out@ + interleaved(text@, by@) =~= interleaved(text@, by@));
        while start < text.len()
            invariant
                start <= text@.len(),
                interleaved(text@, by@) == out@ + interleaved(text@.skip(start as int), by@),
            decreases text@.len() - start,
        {
            let ghost before = out@;
            let ghost rest = text@.skip(start as int);
            out.append(by);
            out.push(text[start]);
            assert(rest.drop_first() =~= text@.skip(start + 1));
            assert(before + (by@ + seq![rest[0]] + interleaved(rest.drop_first(), by@))
                =~= out@ + interleaved(rest.drop_first(), by@));
            start += 1;
        }
        assert(text@.skip(text@.len() as int) =~= Seq::<char>::empty());
        out.append(by);
        return out;
    }
    assert(out@ + replaced(text@, pat@, by@) =~= replaced(text@, pat@, by@));
    loop
        invariant
            n == text@.len(),
            pat@.len() > 0,
            start <= text@.len(),
            replaced(text@, pat@, by@) == out@ + replaced(text@.skip(start as int), pat@, by@),
            text@ == s@,
            pat@ == pattern@,
        decreases text@.len() - start,
    {
        let ghost before = out@;
        let ghost rest = text@.skip(start as int);
        proof {
            lemma_find_shift(text@, pat@, start as int, start as int);
        }
        match find(text.as_slice(), pat.as_slice(), start) {
            Some(i) => {
                let piece = text_of(slice_subrange(text.as_slice(), start, i));
                assert(piece@ =~= rest.take(i - start));
                out.append(piece.as_str());
                out.append(by);
                assert(rest.skip(i - start + pat@.len()) =~= text@.skip((i + pat@.len()) as int));
                assert(before + (rest.take(i - start) + by@ + replaced(
                    text@.skip((i + pat@.len()) as int),
                    pat@,
                    by@,
                )) =~= out@ + replaced(text@.skip((i + pat@.len()) as int), pat@, by@));
                start = i + pat.len();
            },
            None => {
                let piece = text_of(slice_subrange(text.as_slice(), start, text.len()));
                assert(piece@ =~= rest);
                out.append(piece.as_str());
                return out;
            },
        }
    }
}

/// The texts, in order, with `sep` between two neighbours.
pub open spec fn joined(parts: Seq<Seq<char>>, sep: Seq<char>) -> Seq<char>
    decreases parts.len(),
{
    if parts.len() == 0 {
        seq![]
    } else if parts.len() == 1 {
        parts[0]
    } else {
        joined(parts.drop_last(), sep) + sep + parts.last()
    }
}

/// The character sequences of a list of strings.
pub open spec fn texts(list: Seq<String>) -> Seq<Seq<char>> {
    list.map_values(|s: String| s@)
}

pub fn join_texts(parts: &Vec<String>, sep: &str) -> (r: String)
    ensures
        r@ == joined(texts(parts@), sep@),
{
    let mut out = String::new();
    let mut i: usize = 0;
    assert(texts(parts@).take(0) =~= Seq::<Seq<char>>::empty());
    while i < parts.len()
        invariant
            i <= parts@.len(),
            out@ == joined(texts(parts@).take(i as int), sep@),
        decreases parts@.len() - i,
    {
        let ghost sofar = texts(parts@).take(i + 1);
        assert(sofar.drop_last() =~= texts(parts@).take(i as int));
        assert(sofar.last() == parts@[i as int]@);
        if i > 0 {
            out.append(sep);
            out.append(parts[i].as_str());
        } else {
            assert(sofar[0] == parts@[0]@);
            out.append(parts[i].as_str());
            assert(out@ =~= parts@[0]@);
        }
        i += 1;
    }
    assert(texts(parts@).take(parts@.len() as int) =~= texts(parts@));
    out
}

/// The two strings, one after the other.
pub fn concat(a: &str, b: &str) -> (r: String)
    ensures
        r@ == a@ + b@,
{
    let mut out = a.to_owned();
    out.append(b);
    out
}

/// The three strings, one after the other.
pub fn concat3(a: &str, b: &str, c: &str) -> (r: String)
    ensures
        r@ == a@ + b@ + c@,
{
    let mut out = a.to_owned();
    out.append(b);
    out.append(c);
    out
}

// ---------------------------------------------------------------------------
// Order
// ---------------------------------------------------------------------------

/// The lexicographic order by character code, which is also the order of the encoded bytes.
pub open spec fn text_le(a: Seq<char>, b: Seq<char>) -> bool
    decreases a.len(),
{
    if a.len() == 0 {
        true
    } else if b.len() == 0 {
        false
    } else if a[0] == b[0] {
        text_le(a.drop_first(), b.drop_first())
    } else {
        a[0] < b[0]
    }
}

pub proof fn lemma_text_le_reflexive(a: Seq<char>)
    ensures
        text_le(a, a),
    decreases a.len(),
{
    if a.len() > 0 {
        lemma_text_le_reflexive(a.drop_first());
    }
}

pub proof fn lemma_text_le_total(a: Seq<char>, b: Seq<char>)
    ensures
        text_le(a, b) || text_le(b, a),
    decreases a.len(),
{
    if a.len() > 0 && b.len() > 0 && a[0] == b[0] {
        lemma_text_le_total(a.drop_first(), b.drop_first());
    }
}

pub proof fn lemma_text_le_antisymmetric(a: Seq<char>, b: Seq<char>)
    requires
        text_le(a, b),
        text_le(b, a),
    ensures
        a == b,
    decreases a.len(),
{
    if a.len() == 0 || b.len() == 0 {
        assert(a =~= b);
    } else {
        lemma_text_le_antisymmetric(a.drop_first(), b.drop_first());
        assert(a =~= seq![a[0]] + a.drop_first());
        assert(b =~= seq![b[0]] + b.drop_first());
    }
}

pub proof fn lemma_text_le_transitive(a: Seq<char>, b: Seq<char>, c: Seq<char>)
    requires
        text_le(a, b),
        text_le(b, c),
    ensures
        text_le(a, c),
    decreases a.len(),
{
    if a.len() > 0 && b.len() > 0 && c.len() > 0 && a[0] == b[0] && b[0] == c[0] {
        lemma_text_le_transitive(a.drop_first(), b.drop_first(), c.drop_first());
    }
}

/// The order of texts, with no text before every text.
pub open spec fn opt_text_le(a: Option<Seq<char>>, b: Option<Seq<char>>) -> bool {
    match (a, b) {
        (None, _) => true,
        (Some(_), None) => false,
        (Some(s), Some(t)) => text_le(s, t),
    }
}

pub proof fn lemma_opt_text_le_total(a: Option<Seq<char>>, b: Option<Seq<char>>)
    ensures
        opt_text_le(a, a),
        opt_text_le(a, b) || opt_text_le(b, a),
        opt_text_le(a, b) && opt_text_le(b, a) ==> a == b,
{
    match (a, b) {
        (Some(s), Some(t)) => {
            lemma_text_le_reflexive(s);
            lemma_text_le_total(s, t);
            if text_le(s, t) && text_le(t, s) {
                lemma_text_le_antisymmetric(s, t);
            }
        },
        (Some(s), None) => {
            lemma_text_le_reflexive(s);
        },
        _ => {},
    }
}

pub proof fn lemma_opt_text_le_transitive(
    a: Option<Seq<char>>,
    b: Option<Seq<char>>,
    c: Option<Seq<char>>,
)
    requires
        opt_text_le(a, b),
        opt_text_le(b, c),
    ensures
        opt_text_le(a, c),
{
    match (a, b, c) {
        (Some(s), Some(t), Some(u)) => {
            lemma_text_le_transitive(s, t, u);
        },
        _ => {},
    }
}

pub fn opt_not_after(a: &Option<String>, b: &Option<String>) -> (r: bool)
    ensures
        r == opt_text_le(opt_text(*a), opt_text(*b)),
{
    match (a, b) {
        (None, _) => true,
        (Some(_), None) => false,
        (Some(s), Some(t)) => not_after(s.as_str(), t.as_str()),
    }
}

/// Whether the two are both absent or the same text.
pub fn same_opt_text(a: &Option<String>, b: &Option<String>) -> (r: bool)
    ensures
        r == (opt_text(*a) == opt_text(*b)),
{
    match (a, b) {
        (None, None) => true,
        (Some(s), Some(t)) => same_text(s.as_str(), t.as_str()),
        _ => false,
    }
}

/// Whether `a` comes before `b` or is equal to it.
pub fn not_after(a: &str, b: &str) -> (r: bool)
    ensures
        r == text_le(a@, b@),
{
    let left = chars_of(a);
    let right = chars_of(b);
    let mut i: usize = 0;
    assert(left@.skip(0) =~= left@);
    assert(right@.skip(0) =~= right@);
    while i < left.len() && i < right.len()
        invariant
            i <= left@.len(),
            i <= right@.len(),
            text_le(left@, right@) == text_le(left@.skip(i as int), right@.skip(i as int)),
            left@ == a@,
            right@ == b@,
        decreases left@.len() - i,
    {
        if left[i] != right[i] {
            return left[i] < right[i];
        }
        assert(left@.skip(i as int).drop_first() =~= left@.skip(i + 1));
        assert(right@.skip(i as int).drop_first() =~= right@.skip(i + 1));
        i += 1;
    }
    i == left.len()
}

/// The lines that are not blank, without white space around them.
pub open spec fn filled(lines: Seq<Seq<char>>) -> Seq<Seq<char>>
    decreases lines.len(),
{
    if lines.len() == 0 {
        seq![]
    } else if trim(lines.last()).len() > 0 {
        filled(lines.drop_last()).push(trim(lines.last()))
    } else {
        filled(lines.drop_last())
    }
}

/// The lines of a text that are not blank, without white space around them.
pub fn filled_lines(content: &str) -> (r: Vec<String>)
    ensures
        texts(r@) == filled(text_lines(content@)),
{
    let lines = lines_of(chars_of(content).as_slice());
    let ghost views = line_views(lines@);
    let mut out: Vec<String> = Vec::new();
    let mut i: usize = 0;
    assert(texts(out@) =~= seq![]);
    while i < lines.len()
        invariant
            i <= lines@.len(),
            views == line_views(lines@),
            texts(out@) == filled(views.take(i as int)),
        decreases lines@.len() - i,
    {
        let ghost before = texts(out@);
        assert(views.take(i + 1).drop_last() =~= views.take(i as int));
        assert(views.take(i + 1).last() == lines@[i as int]@);
        let line = trimmed(lines[i].as_slice());
        if line.len() > 0 {
            let copy = text_of(line);
            out.push(copy);
            assert(texts(out@) =~= before.push(copy@));
        }
        i += 1;
    }
    assert(views.take(lines@.len() as int) =~= views);
    out
}

// ---------------------------------------------------------------------------
// Lines that are put together
// ---------------------------------------------------------------------------

proof fn lemma_trim_last(t: Seq<char>)
    requires
        t.len() > 0,
        is_space(t.last()),
    ensures
        trim(t.drop_last()) == trim(t),
    decreases t.len(),
{
    if is_space(t[0]) {
        if t.len() > 1 {
            assert(t.drop_last().drop_first() =~= t.drop_first().drop_last());
            lemma_trim_last(t.drop_first());
        } else {
            assert(t.drop_last() =~= t.drop_first());
        }
    }
}

/// The lines of two lists that are not blank are those of the one and those of the other.
pub proof fn lemma_filled_concat(a: Seq<Seq<char>>, b: Seq<Seq<char>>)
    ensures
        filled(a + b) == filled(a) + filled(b),
    decreases b.len(),
{
    if b.len() == 0 {
        assert(a + b =~= a);
        assert(filled(a) + filled(b) =~= filled(a));
    } else {
        assert((a + b).drop_last() =~= a + b.drop_last());
        lemma_filled_concat(a, b.drop_last());
        assert(filled(a + b) =~= filled(a) + filled(b));
    }
}

proof fn lemma_filled_line(line: Seq<char>)
    ensures
        filled(seq![strip_return(line)]) == if line.len() == 0 {
            seq![]
        } else {
            filled(seq![line])
        },
{
    reveal_with_fuel(filled, 2);
    if line.len() > 0 && line.last() == '\r' {
        lemma_trim_last(line);
    }
    assert(seq![line].drop_last() =~= seq![]);
    assert(seq![strip_return(line)].drop_last() =~= seq![]);
}

/// The lines of a text that are not blank are those before a line feed and those after it.
pub proof fn lemma_filled_split(a: Seq<char>, b: Seq<char>)
    ensures
        filled(text_lines(a + seq!['\n'] + b)) == filled(text_lines(a)) + filled(text_lines(b)),
    decreases a.len(),
{
    let t = a + seq!['\n'] + b;
    lemma_index_from(t, '\n', 0);
    lemma_index_from(a, '\n', 0);
    assert(t[a.len() as int] == '\n');
    let i = index_from(t, '\n', 0)->0;
    match index_from(a, '\n', 0) {
        Some(k) => {
            assert(t[k] == a[k]);
            if i < k {
                assert(t[i] == a[i]);
            }
            assert(i == k);
            let rest = a.skip(k + 1);
            assert(t.take(k) =~= a.take(k));
            assert(t.skip(k + 1) =~= rest + seq!['\n'] + b);
            lemma_filled_split(rest, b);
            let line = seq![strip_return(a.take(k))];
            lemma_filled_concat(line, text_lines(rest + seq!['\n'] + b));
            lemma_filled_concat(line, text_lines(rest));
            assert(filled(line) + (filled(text_lines(rest)) + filled(text_lines(b))) =~= filled(
                line,
            ) + filled(text_lines(rest)) + filled(text_lines(b)));
        },
        None => {
            if i < a.len() {
                assert(t[i] == a[i]);
            }
            assert(i == a.len());
            assert(t.take(i) =~= a);
            assert(t.skip(i + 1) =~= b);
            lemma_filled_line(a);
            lemma_filled_concat(seq![strip_return(a)], text_lines(b));
        },
    }
}

proof fn lemma_trim_right(t: Seq<char>)
    ensures
        trim_right(t).len() > 0 ==> !is_space(trim_right(t).last()) && trim_right(t)[0] == t[0],
    decreases t.len(),
{
    if t.len() > 0 && is_space(t.last()) {
        lemma_trim_right(t.drop_last());
    }
}

proof fn lemma_trim_left(t: Seq<char>)
    ensures
        trim_left(t).len() > 0 ==> !is_space(trim_left(t)[0]),
    decreases t.len(),
{
    if t.len() > 0 && is_space(t[0]) {
        lemma_trim_left(t.drop_first());
    }
}

/// A text that was trimmed has no white space at its ends.
pub proof fn lemma_trimmed(t: Seq<char>)
    ensures
        trim(trim(t)) == trim(t),
{
    lemma_trim_left(t);
    lemma_trim_right(trim_left(t));
}

/// The lines that are not blank have no white space at their ends.
pub proof fn lemma_filled(lines: Seq<Seq<char>>)
    ensures
        forall|i: int|
            0 <= i < filled(lines).len() ==> (#[trigger] filled(lines)[i]).len() > 0 && trim(
                filled(lines)[i],
            ) == filled(lines)[i],
    decreases lines.len(),
{
    if lines.len() > 0 {
        let front = filled(lines.drop_last());
        let all = filled(lines);
        lemma_filled(lines.drop_last());
        lemma_trimmed(lines.last());
        assert forall|i: int| 0 <= i < all.len() implies (#[trigger] all[i]).len() > 0 && trim(
            all[i],
        ) == all[i] by {
            if i < front.len() {
                assert(all[i] == front[i]);
            }
        }
    }
}

/// Bytes in UTF-8 with a line feed after them are in UTF-8.
pub proof fn lemma_line_feed_after(a: Seq<u8>)
    requires
        vstd::utf8::valid_utf8(a),
    ensures
        vstd::utf8::valid_utf8(a + seq![10u8]),
{
    let feed = seq!['\n'];
    vstd::utf8::is_ascii_chars_encode_utf8(feed);
    assert(vstd::utf8::encode_utf8(feed) =~= seq![10u8]);
    vstd::utf8::encode_utf8_valid_utf8(feed);
    vstd::utf8::valid_utf8_concat(a, seq![10u8]);
}

/// Bytes in UTF-8 without a line feed stand for text without one.
pub proof fn lemma_no_line_feed(bytes: Seq<u8>)
    requires
        vstd::utf8::valid_utf8(bytes),
        forall|i: int| 0 <= i < bytes.len() ==> #[trigger] bytes[i] != 10,
    ensures
        filled(text_lines(vstd::utf8::decode_utf8(bytes))) == filled(
            seq![vstd::utf8::decode_utf8(bytes)],
        ),
{
    let t = vstd::utf8::decode_utf8(bytes);
    let feed = seq!['\n'];
    lemma_index_from(t, '\n', 0);
    match index_from(t, '\n', 0) {
        Some(i) => {
            vstd::utf8::decode_utf8_encode_utf8(bytes);
            assert(t.subrange(i, i + 1) =~= feed);
            assert(occurs_at(t, feed, i));
            let at = lemma_includes_bytes(t, feed);
            vstd::utf8::is_ascii_chars_encode_utf8(feed);
            assert(vstd::utf8::encode_utf8(feed) =~= seq![10u8]);
            assert(bytes.subrange(at, at + 1)[0] == bytes[at]);
        },
        None => {
            if t.len() == 0 {
                reveal_with_fuel(filled, 2);
                assert(trim(t).len() == 0);
                assert(seq![t].drop_last() =~= seq![]);
            }
        },
    }
}

/// Bytes in UTF-8 can be cut at a line feed.
pub proof fn lemma_decode_at_line_feed(a: Seq<u8>, b: Seq<u8>)
    requires
        vstd::utf8::valid_utf8(a + seq![10u8] + b),
    ensures
        vstd::utf8::valid_utf8(a),
        vstd::utf8::valid_utf8(b),
        vstd::utf8::decode_utf8(a + seq![10u8] + b) == vstd::utf8::decode_utf8(a) + seq!['\n']
            + vstd::utf8::decode_utf8(b),
{
    let all = a + seq![10u8] + b;
    let n = a.len() as int;
    assert(all[n] == 10u8);
    vstd::utf8::is_char_boundary_iff_not_is_continuation_byte(all, n);
    vstd::utf8::valid_utf8_split(all, n);
    vstd::utf8::decode_utf8_split(all, n);
    assert(all.subrange(0, n) =~= a);
    let rest = all.subrange(n, all.len() as int);
    assert(rest =~= seq![10u8] + b);
    let feed = seq!['\n'];
    vstd::utf8::is_ascii_chars_encode_utf8(feed);
    assert(vstd::utf8::encode_utf8(feed) =~= seq![10u8]);
    vstd::utf8::encode_utf8_decode_utf8(feed);
    assert(rest[0] == 10u8);
    assert(vstd::utf8::is_char_boundary(rest, 1)) by {
        reveal_with_fuel(vstd::utf8::is_char_boundary, 3);
    }
    vstd::utf8::valid_utf8_split(rest, 1);
    vstd::utf8::decode_utf8_split(rest, 1);
    assert(rest.subrange(0, 1) =~= seq![10u8]);
    assert(rest.subrange(1, rest.len() as int) =~= b);
    assert(vstd::utf8::decode_utf8(a) + (feed + vstd::utf8::decode_utf8(b))
        =~= vstd::utf8::decode_utf8(a) + feed + vstd::utf8::decode_utf8(b));
}

// ---------------------------------------------------------------------------
// Laws
// ---------------------------------------------------------------------------

/// White space are these characters, and no others.
pub proof fn law_white_space(c: char)
    ensures
        is_space(c) <==> c == '\t' || c == '\n' || c == '\u{b}' || c == '\u{c}' || c == '\r' || c
            == ' ' || c == '\u{85}' || c == '\u{a0}' || c == '\u{1680}' || c == '\u{2000}' || c
            == '\u{2001}' || c == '\u{2002}' || c == '\u{2003}' || c == '\u{2004}' || c
            == '\u{2005}' || c == '\u{2006}' || c == '\u{2007}' || c == '\u{2008}' || c
            == '\u{2009}' || c == '\u{200a}' || c == '\u{2028}' || c == '\u{2029}' || c
            == '\u{202f}' || c == '\u{205f}' || c == '\u{3000}',
{
    let n = c as u32;
    assert(n as char == c);
}

/// White space around a text is taken off, whatever its length, and nothing else is.
pub proof fn law_white_space_around_is_taken_off(
    before: Seq<char>,
    t: Seq<char>,
    after: Seq<char>,
)
    requires
        forall|i: int| 0 <= i < before.len() ==> is_space(#[trigger] before[i]),
        forall|i: int| 0 <= i < after.len() ==> is_space(#[trigger] after[i]),
        t.len() > 0 ==> !is_space(t[0]) && !is_space(t.last()),
    ensures
        trim(before + t + after) == t,
        trim_left(before + t + after) == if t.len() > 0 {
            t + after
        } else {
            seq![]
        },
{
    assert(before + t + after =~= before + (t + after));
    lemma_leading_space(before, t + after);
    if t.len() > 0 {
        assert((t + after)[0] == t[0]);
        lemma_trailing_space(t, after);
    } else {
        assert(t + after =~= after);
        lemma_only_space(after);
    }
}

proof fn lemma_leading_space(before: Seq<char>, t: Seq<char>)
    requires
        forall|i: int| 0 <= i < before.len() ==> is_space(#[trigger] before[i]),
    ensures
        trim_left(before + t) == trim_left(t),
    decreases before.len(),
{
    if before.len() == 0 {
        assert(before + t =~= t);
    } else {
        let rest = before.drop_first();
        assert forall|i: int| 0 <= i < rest.len() implies is_space(#[trigger] rest[i]) by {
            assert(rest[i] == before[i + 1]);
        }
        assert((before + t)[0] == before[0]);
        assert((before + t).drop_first() =~= rest + t);
        lemma_leading_space(rest, t);
    }
}

proof fn lemma_trailing_space(t: Seq<char>, after: Seq<char>)
    requires
        t.len() > 0,
        !is_space(t.last()),
        forall|i: int| 0 <= i < after.len() ==> is_space(#[trigger] after[i]),
    ensures
        trim_right(t + after) == t,
    decreases after.len(),
{
    if after.len() == 0 {
        assert(t + after =~= t);
    } else {
        let rest = after.drop_last();
        assert forall|i: int| 0 <= i < rest.len() implies is_space(#[trigger] rest[i]) by {
            assert(rest[i] == after[i]);
        }
        assert(is_space(after[after.len() - 1]));
        assert((t + after).last() == after.last());
        assert((t + after).drop_last() =~= t + rest);
        lemma_trailing_space(t, rest);
    }
}

proof fn lemma_only_space(t: Seq<char>)
    requires
        forall|i: int| 0 <= i < t.len() ==> is_space(#[trigger] t[i]),
    ensures
        trim_left(t) == Seq::<char>::empty(),
    decreases t.len(),
{
    if t.len() > 0 {
        let rest = t.drop_first();
        assert forall|i: int| 0 <= i < rest.len() implies is_space(#[trigger] rest[i]) by {
            assert(rest[i] == t[i + 1]);
        }
        assert(is_space(t[0]));
        lemma_only_space(rest);
    } else {
        assert(t =~= Seq::<char>::empty());
    }
}

/// Texts are ordered by their first characters that differ; a text comes before every text that
/// it is the start of.
pub proof fn law_first_difference_decides(
    common: Seq<char>,
    c: char,
    d: char,
    a: Seq<char>,
    b: Seq<char>,
)
    requires
        c < d,
    ensures
        text_le(common.push(c) + a, common.push(d) + b),
        !text_le(common.push(d) + b, common.push(c) + a),
        text_le(common, common + a),
        a.len() > 0 ==> !text_le(common + a, common),
    decreases common.len(),
{
    let s = common.push(c) + a;
    let t = common.push(d) + b;
    let u = common + a;
    if common.len() == 0 {
        assert(s[0] == c && t[0] == d);
    } else {
        let rest = common.drop_first();
        law_first_difference_decides(rest, c, d, a, b);
        assert(s[0] == common[0] && t[0] == common[0] && u[0] == common[0]);
        assert(s.drop_first() =~= rest.push(c) + a);
        assert(t.drop_first() =~= rest.push(d) + b);
        assert(u.drop_first() =~= rest + a);
    }
}

/// No text comes before every text.
pub proof fn law_no_text_comes_first(a: Seq<char>, b: Seq<char>)
    ensures
        opt_text_le(None, Some(b)),
        opt_text_le(None, None),
        !opt_text_le(Some(a), None),
        opt_text_le(Some(a), Some(b)) == text_le(a, b),
{
}

/// Texts are joined by what stands between two neighbours, and by nothing else.
pub proof fn law_joined_in_parts(a: Seq<Seq<char>>, b: Seq<Seq<char>>, t: Seq<char>, sep: Seq<char>)
    requires
        a.len() > 0,
        b.len() > 0,
    ensures
        joined(a + b, sep) == joined(a, sep) + sep + joined(b, sep),
        joined(seq![t], sep) == t,
        joined(seq![], sep) == Seq::<char>::empty(),
    decreases b.len(),
{
    assert((a + b).last() == b.last());
    assert((a + b).drop_last() =~= a + b.drop_last());
    if b.len() == 1 {
        assert(a + b.drop_last() =~= a);
    } else {
        law_joined_in_parts(a, b.drop_last(), t, sep);
        assert(joined(a + b, sep) =~= joined(a, sep) + sep + joined(b, sep));
    }
}

/// A line ends at the line feed, with the carriage return before it where there is one; the lines
/// of the rest follow. What does not end is a line where it is not empty.
pub proof fn law_lines_end_at_line_feeds(line: Seq<char>, rest: Seq<char>)
    requires
        forall|i: int| 0 <= i < line.len() ==> #[trigger] line[i] != '\n',
    ensures
        line.len() == 0 || line.last() != '\r' ==> text_lines(line.push('\n') + rest) == seq![line]
            + text_lines(rest),
        text_lines(line.push('\r').push('\n') + rest) == seq![line] + text_lines(rest),
        line.len() > 0 ==> text_lines(line) == seq![line],
        text_lines(seq![]) == Seq::<Seq<char>>::empty(),
{
    lemma_line_before(line, rest);
    assert forall|i: int| 0 <= i < line.push('\r').len() implies #[trigger] line.push('\r')[i]
        != '\n' by {}
    lemma_line_before(line.push('\r'), rest);
    assert(line.push('\r').drop_last() =~= line);
    lemma_index_from(line, '\n', 0);
}

proof fn lemma_line_before(line: Seq<char>, rest: Seq<char>)
    requires
        forall|i: int| 0 <= i < line.len() ==> #[trigger] line[i] != '\n',
    ensures
        text_lines(line.push('\n') + rest) == seq![strip_return(line)] + text_lines(rest),
{
    let t = line.push('\n') + rest;
    let n = line.len() as int;
    lemma_index_from(t, '\n', 0);
    assert(t[n] == '\n');
    assert forall|i: int| 0 <= i < n implies #[trigger] t[i] != '\n' by {
        assert(t[i] == line[i]);
    }
    assert(index_from(t, '\n', 0) == Some(n));
    assert(t.take(n) =~= line);
    assert(t.skip(n + 1) =~= rest);
}

/// The first occurrence of a pattern is replaced, and then those in what follows it; a text
/// without the pattern stays as it is.
pub proof fn law_first_occurrence_is_replaced(
    before: Seq<char>,
    pattern: Seq<char>,
    rest: Seq<char>,
    by: Seq<char>,
    t: Seq<char>,
)
    requires
        pattern.len() > 0,
        forall|i: int| 0 <= i < before.len() ==> !occurs_at(before + pattern + rest, pattern, i),
    ensures
        replaced(before + pattern + rest, pattern, by) == before + by + replaced(rest, pattern, by),
        !includes(t, pattern) ==> replaced(t, pattern, by) == t,
{
    let whole = before + pattern + rest;
    let n = before.len() as int;
    lemma_find_from(whole, pattern, 0);
    lemma_find_from(t, pattern, 0);
    assert(whole.subrange(n, n + pattern.len()) =~= pattern);
    assert(occurs_at(whole, pattern, n));
    assert(find_from(whole, pattern, 0) == Some(n));
    assert(whole.take(n) =~= before);
    assert(whole.skip(n + pattern.len()) =~= rest);
}

/// Nothing, as a pattern, stands at every boundary between characters and at both ends.
pub proof fn law_nothing_stands_at_every_boundary(c: char, rest: Seq<char>, by: Seq<char>)
    ensures
        replaced(seq![], seq![], by) == by,
        replaced(seq![c] + rest, seq![], by) == by + seq![c] + replaced(rest, seq![], by),
{
    assert((seq![c] + rest).drop_first() =~= rest);
}

} // verus!
