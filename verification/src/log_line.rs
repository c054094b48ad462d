//! What one line of a client's log says: when it was written, which model and request it is
//! about, and when the service lifts a limit.

use vstd::prelude::*;
use vstd::slice::slice_subrange;

use crate::clock;
use crate::text;

verus! {

/// The words that precede the time of a reset, in the Chinese and in the English message:
/// `将在 <time> UTC+8 重置`, `will reset at <time> UTC+8`.
pub const RESET_MARKER_CN: &'static str = "将在 ";

pub const RESET_MARKER_EN: &'static str = "will reset at ";

/// The time at the head of a business log's line, in local time: `9/17/2026, 12:20:31 AM.232`.
pub const BUSINESS_TIME_FORMAT: &'static str = "%m/%d/%Y, %I:%M:%S %p%.3f";

/// The time of a reset: `2026-09-17 17:59:27`.
pub const RESET_TIME_FORMAT: &'static str = "%Y-%m-%d %H:%M:%S";

// ---------------------------------------------------------------------------
// Fields
// ---------------------------------------------------------------------------

/// A character of a field's name; the dot is one, so `requestOptions.model=` is not the field
/// `model=`.
pub open spec fn is_field_char(c: char) -> bool {
    ||| '0' <= c <= '9'
    ||| 'A' <= c <= 'Z'
    ||| 'a' <= c <= 'z'
    ||| c == '_'
    ||| c == '.'
}

/// No field's name runs into position `i` from the left.
pub open spec fn at_boundary(line: Seq<char>, i: int) -> bool {
    i == 0 || !is_field_char(line[i - 1])
}

/// What stands from position `i` on up to one of `stops`, without white space around it.
pub open spec fn value_at(line: Seq<char>, i: int, stops: Seq<char>) -> Seq<char> {
    text::trim(text::before_stop(line.skip(i), stops))
}

/// What ends the value of a field.
pub open spec fn field_stops() -> Seq<char> {
    seq![',', ' ', '"', '}', ')']
}

/// What ends the name of a model.
pub open spec fn model_stops() -> Seq<char> {
    seq![',', ' ', ';']
}

/// The value of the first field named `key` at or after `from` that has one.
pub open spec fn field_from(line: Seq<char>, key: Seq<char>, from: int) -> Option<Seq<char>>
    decreases line.len() - from,
{
    match text::find_from(line, key, from) {
        Some(i) => if i < from || key.len() == 0 || i + key.len() > line.len() {
            None
        } else if at_boundary(line, i) && value_at(line, i + key.len(), field_stops()).len() > 0 {
            Some(value_at(line, i + key.len(), field_stops()))
        } else {
            field_from(line, key, i + key.len())
        },
        None => None,
    }
}

/// The value of the field named `key`.
pub open spec fn field_value(line: Seq<char>, key: Seq<char>) -> Option<Seq<char>> {
    field_from(line, key, 0)
}

/// The model named after the first `marker`.
pub open spec fn model_value(line: Seq<char>, marker: Seq<char>) -> Option<Seq<char>> {
    match text::find_from(line, marker, 0) {
        Some(i) => {
            let value = value_at(line, i + marker.len(), model_stops());
            if value.len() > 0 {
                Some(value)
            } else {
                None
            }
        },
        None => None,
    }
}

/// The position of the first field named `key` at or after `from`.
pub open spec fn boundary_from(line: Seq<char>, key: Seq<char>, from: int) -> Option<int>
    decreases line.len() - from,
{
    match text::find_from(line, key, from) {
        Some(i) => if i < from || key.len() == 0 || i + key.len() > line.len() {
            None
        } else if at_boundary(line, i) {
            Some(i)
        } else {
            boundary_from(line, key, i + key.len())
        },
        None => None,
    }
}

/// The model of the request that the line is about: the value of its first field `model=`.
pub open spec fn request_model_value(line: Seq<char>) -> Option<Seq<char>> {
    match boundary_from(line, "model="@, 0) {
        Some(i) => model_value(line.skip(i), "model="@),
        None => None,
    }
}

fn field_char(c: char) -> (r: bool)
    ensures
        r == is_field_char(c),
{
    ('0' <= c && c <= '9') || ('A' <= c && c <= 'Z') || ('a' <= c && c <= 'z') || c == '_' || c
        == '.'
}

fn boundary(line: &[char], i: usize) -> (r: bool)
    requires
        i < line@.len(),
    ensures
        r == at_boundary(line@, i as int),
{
    i == 0 || !field_char(line[i - 1])
}

fn value_from<'a>(line: &'a [char], i: usize, stops: &[char]) -> (r: &'a [char])
    requires
        i <= line@.len(),
    ensures
        r@ == value_at(line@, i as int, stops@),
{
    let rest = slice_subrange(line, i, line.len());
    assert(rest@ =~= line@.skip(i as int));
    text::trimmed(text::head_before(rest, stops))
}

/// The value of the field named `key`.
pub fn field_in(line: &[char], key: &str) -> (r: Option<String>)
    requires
        key@.len() > 0,
    ensures
        text::opt_text(r) == field_value(line@, key@),
{
    let name = text::chars_of(key);
    let stops: Vec<char> = vec![',', ' ', '"', '}', ')'];
    assert(stops@ =~= field_stops());
    let n: usize = line.len();
    let mut search: usize = 0;
    loop
        invariant
            n == line@.len(),
            name@ == key@,
            key@.len() > 0,
            stops@ == field_stops(),
            search <= line@.len(),
            field_value(line@, key@) == field_from(line@, key@, search as int),
        decreases line@.len() - search,
    {
        match text::find(line, name.as_slice(), search) {
            Some(i) => {
                if boundary(line, i) {
                    let value = value_from(line, i + name.len(), stops.as_slice());
                    if value.len() > 0 {
                        return Some(text::text_of(value));
                    }
                }
                search = i + name.len();
            },
            None => {
                return None;
            },
        }
    }
}

/// The model named after the first `marker`.
pub fn model_in(line: &[char], marker: &str) -> (r: Option<String>)
    ensures
        text::opt_text(r) == model_value(line@, marker@),
{
    let name = text::chars_of(marker);
    let stops: Vec<char> = vec![',', ' ', ';'];
    assert(stops@ =~= model_stops());
    let n: usize = line.len();
    match text::find(line, name.as_slice(), 0) {
        Some(i) => {
            let value = value_from(line, i + name.len(), stops.as_slice());
            if value.len() > 0 {
                Some(text::text_of(value))
            } else {
                None
            }
        },
        None => None,
    }
}

/// The model of the request that the line is about.
pub fn request_model_in(line: &[char]) -> (r: Option<String>)
    ensures
        text::opt_text(r) == request_model_value(line@),
{
    let name = text::chars_of("model=");
    proof {
        reveal_strlit("model=");
    }
    let n: usize = line.len();
    let mut search: usize = 0;
    loop
        invariant
            n == line@.len(),
            name@ == "model="@,
            name@.len() == 6,
            search <= line@.len(),
            boundary_from(line@, "model="@, 0) == boundary_from(line@, "model="@, search as int),
        decreases line@.len() - search,
    {
        match text::find(line, name.as_slice(), search) {
            Some(i) => {
                if boundary(line, i) {
                    let rest = slice_subrange(line, i, line.len());
                    assert(rest@ =~= line@.skip(i as int));
                    return model_in(rest, "model=");
                }
                search = i + name.len();
            },
            None => {
                return None;
            },
        }
    }
}

// ---------------------------------------------------------------------------
// The pair of a request and its session
// ---------------------------------------------------------------------------

pub open spec fn is_id_char(c: char) -> bool {
    ||| '0' <= c <= '9'
    ||| 'A' <= c <= 'F'
    ||| 'a' <= c <= 'f'
    ||| c == '-'
}

/// The text is `len` hexadecimal digits or hyphens.
pub open spec fn is_id(t: Seq<char>, len: nat) -> bool {
    t.len() == len && forall|i: int| 0 <= i < t.len() ==> is_id_char(#[trigger] t[i])
}

/// The ids of a request and of its session, where the text is the two with a slash between them.
pub open spec fn pair_of(t: Seq<char>) -> Option<(Seq<char>, Seq<char>)> {
    match text::index_from(t, '/', 0) {
        Some(k) => if is_id(t.take(k), 32) && is_id(t.skip(k + 1), 36) {
            Some((t.take(k), t.skip(k + 1)))
        } else {
            None
        },
        None => None,
    }
}

/// The last such pair in brackets at or after `from`.
pub open spec fn pair_from(line: Seq<char>, from: int) -> Option<(Seq<char>, Seq<char>)>
    decreases line.len() - from,
{
    match text::index_from(line, '(', from) {
        Some(open) => match text::index_from(line, ')', open + 1) {
            Some(close) => if from <= open < close < line.len() {
                match pair_from(line, close) {
                    Some(p) => Some(p),
                    None => pair_of(line.subrange(open + 1, close)),
                }
            } else {
                None
            },
            None => None,
        },
        None => None,
    }
}

/// The last such pair in brackets on the line.
pub open spec fn pair_value(line: Seq<char>) -> Option<(Seq<char>, Seq<char>)> {
    pair_from(line, 0)
}

/// A pair of strings as it is seen through an option.
pub open spec fn opt_pair(o: Option<(String, String)>) -> Option<(Seq<char>, Seq<char>)> {
    match o {
        Some(p) => Some((p.0@, p.1@)),
        None => None,
    }
}

fn id_of(t: &[char], len: usize) -> (r: bool)
    ensures
        r == is_id(t@, len as nat),
{
    if t.len() != len {
        return false;
    }
    let mut i: usize = 0;
    while i < t.len()
        invariant
            i <= t@.len(),
            forall|j: int| 0 <= j < i ==> is_id_char(#[trigger] t@[j]),
        decreases t@.len() - i,
    {
        let c = t[i];
        if !(('0' <= c && c <= '9') || ('A' <= c && c <= 'F') || ('a' <= c && c <= 'f') || c
            == '-') {
            assert(!is_id_char(t@[i as int]));
            return false;
        }
        i += 1;
    }
    true
}

fn split_pair(t: &[char]) -> (r: Option<(String, String)>)
    ensures
        opt_pair(r) == pair_of(t@),
{
    match text::find_char(t, '/', 0) {
        Some(k) => {
            let request = slice_subrange(t, 0, k);
            let session = slice_subrange(t, k + 1, t.len());
            assert(request@ =~= t@.take(k as int));
            assert(session@ =~= t@.skip(k + 1));
            if id_of(request, 32) && id_of(session, 36) {
                Some((text::text_of(request), text::text_of(session)))
            } else {
                None
            }
        },
        None => None,
    }
}

/// The last pair `(requestId/sessionId)` on the line.
pub fn pair_in(line: &[char]) -> (r: Option<(String, String)>)
    ensures
        opt_pair(r) == pair_value(line@),
{
    let mut found: Option<(String, String)> = None;
    let mut search: usize = 0;
    loop
        invariant
            search <= line@.len(),
            pair_value(line@) == match pair_from(line@, search as int) {
                Some(p) => Some(p),
                None => opt_pair(found),
            },
        decreases line@.len() - search,
    {
        let open: usize = match text::find_char(line, '(', search) {
            Some(i) => i,
            None => {
                return found;
            },
        };
        let close: usize = match text::find_char(line, ')', open + 1) {
            Some(i) => i,
            None => {
                return found;
            },
        };
        let inner = slice_subrange(line, open + 1, close);
        match split_pair(inner) {
            Some(p) => {
                found = Some(p);
            },
            None => {},
        }
        search = close;
    }
}

// ---------------------------------------------------------------------------
// Times
// ---------------------------------------------------------------------------

/// The number of bytes that a character takes in UTF-8.
pub open spec fn width(c: char) -> int {
    let n = c as u32;
    if n < 0x80 {
        1
    } else if n < 0x800 {
        2
    } else if n < 0x10000 {
        3
    } else {
        4
    }
}

/// How many of the first characters take exactly `bytes` bytes; `None` where no number does.
pub open spec fn cut(t: Seq<char>, bytes: int) -> Option<int>
    decreases t.len(),
{
    if bytes == 0 {
        Some(0)
    } else if bytes < 0 || t.len() == 0 {
        None
    } else {
        match cut(t.drop_first(), bytes - width(t[0])) {
            Some(k) => Some(k + 1),
            None => None,
        }
    }
}

fn byte_cut(t: &[char], bytes: u32) -> (r: Option<usize>)
    ensures
        match r {
            Some(k) => cut(t@, bytes as int) == Some(k as int) && k <= t@.len(),
            None => cut(t@, bytes as int) is None,
        },
{
    let mut left: u32 = bytes;
    let mut i: usize = 0;
    assert(t@.skip(0) =~= t@);
    while left > 0
        invariant
            i <= t@.len(),
            match cut(t@.skip(i as int), left as int) {
                Some(k) => cut(t@, bytes as int) == Some(i + k),
                None => cut(t@, bytes as int) is None,
            },
        decreases left,
    {
        if i == t.len() {
            return None;
        }
        let n: u32 = t[i] as u32;
        let w: u32 = if n < 0x80 {
            1
        } else if n < 0x800 {
            2
        } else if n < 0x10000 {
            3
        } else {
            4
        };
        assert(t@.skip(i as int).drop_first() =~= t@.skip(i + 1));
        if w > left {
            assert(cut(t@.skip(i + 1), left - w) is None);
            return None;
        }
        left = left - w;
        i += 1;
    }
    Some(i)
}

pub open spec fn is_digit(c: char) -> bool {
    '0' <= c <= '9'
}

/// The number that a run of digits stands for.
pub open spec fn decimal(t: Seq<char>) -> nat
    decreases t.len(),
{
    if t.len() == 0 {
        0
    } else {
        decimal(t.drop_last()) * 10 + (t.last() as u32 - '0' as u32) as nat
    }
}

/// The number, where the text is one or more digits and 32 signed bits can hold it.
pub open spec fn number_of(t: Seq<char>) -> Option<int> {
    if t.len() > 0 && (forall|i: int| 0 <= i < t.len() ==> is_digit(#[trigger] t[i])) && decimal(t)
        <= i32::MAX {
        Some(decimal(t) as int)
    } else {
        None
    }
}

proof fn lemma_decimal_grows(t: Seq<char>, k: int)
    requires
        0 <= k <= t.len(),
    ensures
        decimal(t.take(k)) <= decimal(t),
    decreases t.len(),
{
    if k < t.len() {
        assert(t.drop_last().take(k) =~= t.take(k));
        lemma_decimal_grows(t.drop_last(), k);
    } else {
        assert(t.take(k) =~= t);
    }
}

fn number_in(t: &[char]) -> (r: Option<i32>)
    ensures
        match r {
            Some(n) => number_of(t@) == Some(n as int) && n >= 0,
            None => number_of(t@) is None,
        },
{
    if t.len() == 0 {
        return None;
    }
    let mut value: u64 = 0;
    let mut i: usize = 0;
    while i < t.len()
        invariant
            i <= t@.len(),
            forall|j: int| 0 <= j < i ==> is_digit(#[trigger] t@[j]),
            value == decimal(t@.take(i as int)),
            value <= i32::MAX,
        decreases t@.len() - i,
    {
        let c = t[i];
        if !('0' <= c && c <= '9') {
            assert(!is_digit(t@[i as int]));
            return None;
        }
        assert(t@.take(i + 1).drop_last() =~= t@.take(i as int));
        value = value * 10 + (c as u32 - '0' as u32) as u64;
        i += 1;
        if value > i32::MAX as u64 {
            proof {
                lemma_decimal_grows(t@, i as int);
            }
            return None;
        }
    }
    assert(t@.take(t@.len() as int) =~= t@);
    Some(value as i32)
}

/// How many of the first characters are digits or colons.
pub open spec fn run_of_digits(t: Seq<char>) -> int
    decreases t.len(),
{
    if t.len() > 0 && (is_digit(t[0]) || t[0] == ':') {
        1 + run_of_digits(t.drop_first())
    } else {
        0
    }
}

/// The hours and minutes that `H`, `HH`, `HHMM` or `H:MM` stands for.
pub open spec fn hours_and_minutes(t: Seq<char>) -> Option<(int, int)> {
    match text::index_from(t, ':', 0) {
        Some(k) => match (number_of(t.take(k)), number_of(t.skip(k + 1))) {
            (Some(h), Some(m)) => Some((h, m)),
            _ => None,
        },
        None => if t.len() == 1 || t.len() == 2 {
            match number_of(t) {
                Some(h) => Some((h, 0)),
                None => None,
            }
        } else if t.len() == 4 {
            match (number_of(t.take(2)), number_of(t.skip(2))) {
                (Some(h), Some(m)) => Some((h, m)),
                _ => None,
            }
        } else {
            None
        },
    }
}

/// The seconds by which `±H[:MM]` is ahead of UTC, less than a day.
pub open spec fn signed_offset(t: Seq<char>) -> Option<int> {
    if t.len() == 0 || (t[0] != '+' && t[0] != '-') {
        None
    } else {
        let rest = t.drop_first();
        match hours_and_minutes(rest.take(run_of_digits(rest))) {
            Some((h, m)) => {
                let total = if t[0] == '+' {
                    h * 3600 + m * 60
                } else {
                    -(h * 3600 + m * 60)
                };
                if -86_400 < total < 86_400 {
                    Some(total)
                } else {
                    None
                }
            },
            None => None,
        }
    }
}

/// The seconds by which the first `UTC±H[:MM]` in the text is ahead of UTC.
pub open spec fn utc_offset(t: Seq<char>) -> Option<int> {
    match text::find_from(t, "UTC"@, 0) {
        Some(i) => signed_offset(t.skip(i + 3)),
        None => None,
    }
}

fn digit_run(t: &[char]) -> (r: usize)
    ensures
        r <= t@.len(),
        r == run_of_digits(t@),
{
    let mut i: usize = 0;
    assert(t@.skip(0) =~= t@);
    while i < t.len() && (('0' <= t[i] && t[i] <= '9') || t[i] == ':')
        invariant
            i <= t@.len(),
            run_of_digits(t@) == i + run_of_digits(t@.skip(i as int)),
        decreases t@.len() - i,
    {
        assert(t@.skip(i as int).drop_first() =~= t@.skip(i + 1));
        i += 1;
    }
    i
}

fn hours_minutes_in(t: &[char]) -> (r: Option<(i32, i32)>)
    ensures
        match r {
            Some(p) => hours_and_minutes(t@) == Some((p.0 as int, p.1 as int)) && p.0 >= 0 && p.1
                >= 0,
            None => hours_and_minutes(t@) is None,
        },
{
    match text::find_char(t, ':', 0) {
        Some(k) => {
            let left = slice_subrange(t, 0, k);
            let right = slice_subrange(t, k + 1, t.len());
            assert(left@ =~= t@.take(k as int));
            assert(right@ =~= t@.skip(k + 1));
            match (number_in(left), number_in(right)) {
                (Some(h), Some(m)) => Some((h, m)),
                _ => None,
            }
        },
        None => if t.len() == 1 || t.len() == 2 {
            match number_in(t) {
                Some(h) => Some((h, 0)),
                None => None,
            }
        } else if t.len() == 4 {
            let left = slice_subrange(t, 0, 2);
            let right = slice_subrange(t, 2, t.len());
            assert(left@ =~= t@.take(2));
            assert(right@ =~= t@.skip(2));
            match (number_in(left), number_in(right)) {
                (Some(h), Some(m)) => Some((h, m)),
                _ => None,
            }
        } else {
            None
        },
    }
}

/// The seconds by which the first `UTC±H[:MM]` in the text is ahead of UTC.
pub fn parse_utc_offset(t: &[char]) -> (r: Option<i32>)
    ensures
        match r {
            Some(s) => utc_offset(t@) == Some(s as int),
            None => utc_offset(t@) is None,
        },
{
    proof {
        reveal_strlit("UTC");
    }
    let name = text::chars_of("UTC");
    let start: usize = match text::find(t, name.as_slice(), 0) {
        Some(i) => i + 3,
        None => {
            return None;
        },
    };
    let ghost tail = t@.skip(start as int);
    if start == t.len() {
        return None;
    }
    let sign = t[start];
    if sign != '+' && sign != '-' {
        return None;
    }
    let rest = slice_subrange(t, start + 1, t.len());
    assert(rest@ =~= tail.drop_first());
    let digits = slice_subrange(rest, 0, digit_run(rest));
    assert(digits@ =~= rest@.take(run_of_digits(rest@)));
    match hours_minutes_in(digits) {
        Some((h, m)) => {
            let sum: i64 = h as i64 * 3600 + m as i64 * 60;
            let total: i64 = if sign == '+' {
                sum
            } else {
                -sum
            };
            if -86_400 < total && total < 86_400 {
                Some(total as i32)
            } else {
                None
            }
        },
        None => None,
    }
}

/// The time of the reset after the first `marker`; `None` where no such time stands there.
pub open spec fn reset_after(line: Seq<char>, marker: Seq<char>) -> Option<Option<i64>> {
    match text::find_from(line, marker, 0) {
        Some(i) => {
            let rest = line.skip(i + marker.len());
            match cut(rest, 19) {
                Some(k) => match (
                    clock::naive_time(rest.take(k), RESET_TIME_FORMAT@),
                    utc_offset(rest),
                ) {
                    (Some(naive), Some(offset)) => Some(
                        clock::time_at_offset(naive, offset as i32),
                    ),
                    _ => None,
                },
                None => None,
            }
        },
        None => None,
    }
}

/// The time at which the service lifts the limit, as the line gives it with its own offset.
pub open spec fn reset_value(line: Seq<char>) -> Option<i64> {
    match reset_after(line, RESET_MARKER_CN@) {
        Some(r) => r,
        None => match reset_after(line, RESET_MARKER_EN@) {
            Some(r) => r,
            None => None,
        },
    }
}

fn reset_in(line: &[char], marker: &str) -> (r: Option<Option<i64>>)
    ensures
        r == reset_after(line@, marker@),
{
    let name = text::chars_of(marker);
    let n: usize = line.len();
    let start: usize = match text::find(line, name.as_slice(), 0) {
        Some(i) => i + name.len(),
        None => {
            return None;
        },
    };
    let rest = slice_subrange(line, start, line.len());
    assert(rest@ =~= line@.skip(start as int));
    let k: usize = match byte_cut(rest, 19) {
        Some(k) => k,
        None => {
            return None;
        },
    };
    let head = text::text_of(slice_subrange(rest, 0, k));
    assert(head@ =~= rest@.take(k as int));
    let naive: i64 = match clock::parse_naive_time(head.as_str(), RESET_TIME_FORMAT) {
        Some(ms) => ms,
        None => {
            return None;
        },
    };
    let offset: i32 = match parse_utc_offset(rest) {
        Some(s) => s,
        None => {
            return None;
        },
    };
    Some(clock::at_offset(naive, offset))
}

/// The time at which the service lifts the limit.
pub fn reset_at_in(line: &[char]) -> (r: Option<i64>)
    ensures
        r == reset_value(line@),
{
    match reset_in(line, RESET_MARKER_CN) {
        Some(r) => r,
        None => match reset_in(line, RESET_MARKER_EN) {
            Some(r) => r,
            None => None,
        },
    }
}

/// The first word of a text that does not start with white space.
pub open spec fn first_word(t: Seq<char>) -> Seq<char>
    decreases t.len(),
{
    if t.len() == 0 || text::is_space(t[0]) {
        seq![]
    } else {
        seq![t[0]] + first_word(t.drop_first())
    }
}

/// The text between a leading `[` and the first `]`, without white space around it.
pub open spec fn bracketed_head(t: Seq<char>) -> Option<Seq<char>> {
    if t.len() > 0 && t[0] == '[' {
        match text::index_from(t.drop_first(), ']', 0) {
            Some(k) => Some(text::trim(t.drop_first().take(k))),
            None => None,
        }
    } else {
        None
    }
}

/// `stamp` is a time at which the line may have been written: the UTC time that it starts with,
/// or else a time at which some clock, less than a day off, shows the local time in the brackets
/// that it starts with.
pub open spec fn is_stamp(line: Seq<char>, stamp: Option<i64>) -> bool {
    let start = text::trim_left(line);
    match clock::rfc3339_time(first_word(start)) {
        Some(ms) => stamp == Some(ms),
        None => match bracketed_head(start) {
            Some(head) => stamp matches Some(ms) ==> clock::naive_time(
                head,
                BUSINESS_TIME_FORMAT@,
            ) is Some && -86_400_000 < ms - clock::naive_time(head, BUSINESS_TIME_FORMAT@)->0
                < 86_400_000,
            None => stamp is None,
        },
    }
}

fn word_of<'a>(t: &'a [char]) -> (r: &'a [char])
    ensures
        r@ == first_word(t@),
{
    let mut i: usize = 0;
    assert(t@.skip(0) =~= t@);
    assert(t@.take(0) + first_word(t@) =~= first_word(t@));
    while i < t.len() && !text::space(t[i])
        invariant
            i <= t@.len(),
            first_word(t@) == t@.take(i as int) + first_word(t@.skip(i as int)),
        decreases t@.len() - i,
    {
        let ghost rest = t@.skip(i as int);
        assert(rest.drop_first() =~= t@.skip(i + 1));
        assert(t@.take(i as int) + (seq![rest[0]] + first_word(rest.drop_first())) =~= t@.take(
            i + 1,
        ) + first_word(t@.skip(i + 1)));
        i += 1;
    }
    let r = slice_subrange(t, 0, i);
    assert(t@.take(i as int) + Seq::<char>::empty() =~= t@.take(i as int));
    assert(r@ =~= t@.take(i as int));
    r
}

/// The time at which the line was written. A business log gives it in the machine's local time,
/// the SDK's log in UTC.
pub fn stamp_in(line: &[char]) -> (r: Option<i64>)
    ensures
        is_stamp(line@, r),
{
    let start = text::trimmed_left(line);
    let head = text::text_of(word_of(start));
    match clock::parse_rfc3339_time(head.as_str()) {
        Some(ms) => {
            return Some(ms);
        },
        None => {},
    }
    if start.len() == 0 || start[0] != '[' {
        return None;
    }
    let rest = slice_subrange(start, 1, start.len());
    assert(rest@ =~= start@.drop_first());
    match text::find_char(rest, ']', 0) {
        Some(k) => {
            let inner = slice_subrange(rest, 0, k);
            assert(inner@ =~= rest@.take(k as int));
            let time = text::text_of(text::trimmed(inner));
            clock::parse_local_time(time.as_str(), BUSINESS_TIME_FORMAT)
        },
        None => None,
    }
}

/// The time at which the service lifts the limit that the line tells of.
pub fn parse_reset_at(line: &str) -> (r: Option<i64>)
    ensures
        r == reset_value(line@),
{
    reset_at_in(text::chars_of(line).as_slice())
}

/// The ids of the request and of the session in the last brackets that hold the two.
pub fn request_pair(line: &str) -> (r: Option<(String, String)>)
    ensures
        opt_pair(r) == pair_value(line@),
{
    pair_in(text::chars_of(line).as_slice())
}

/// The time at which the line was written.
pub fn line_timestamp(line: &str) -> (r: Option<i64>)
    ensures
        is_stamp(line@, r),
{
    stamp_in(text::chars_of(line).as_slice())
}

// ---------------------------------------------------------------------------
// Laws
// ---------------------------------------------------------------------------

/// No field's value holds one of these characters, nor does white space stand at its ends.
pub open spec fn is_whole_value(value: Seq<char>) -> bool {
    &&& value.len() > 0
    &&& text::trim(value) == value
    &&& forall|i: int|
        0 <= i < value.len() ==> #[trigger] value[i] != ',' && value[i] != ' ' && value[i] != '"'
            && value[i] != '}' && value[i] != ')'
}

/// The name of a model, which may hold more than a field's value.
pub open spec fn is_whole_model(value: Seq<char>) -> bool {
    &&& value.len() > 0
    &&& text::trim(value) == value
    &&& forall|i: int|
        0 <= i < value.len() ==> #[trigger] value[i] != ',' && value[i] != ' ' && value[i] != ';'
}

proof fn lemma_value_at(line: Seq<char>, i: int, value: Seq<char>, after: Seq<char>, stops: Seq<char>)
    requires
        0 <= i <= line.len(),
        line.skip(i) == value + after,
        text::trim(value) == value,
        forall|k: int| 0 <= k < value.len() ==> !stops.contains(#[trigger] value[k]),
        after.len() == 0 || stops.contains(after[0]),
    ensures
        value_at(line, i, stops) == value,
{
    let rest = value + after;
    text::lemma_stop_from(rest, stops, 0);
    let n = value.len() as int;
    let p = text::stop_from(rest, stops, 0);
    if p < n {
        assert(rest[p] == value[p]);
    }
    if n < rest.len() {
        assert(rest[n] == after[0]);
    }
    assert(p == n);
    assert(rest.take(n) =~= value);
}

/// A field is read by its name where no longer name ends with it: its value goes up to the first
/// comma, blank, quotation mark or closing bracket, or to the end of the line.
pub proof fn law_field_is_read(
    before: Seq<char>,
    key: Seq<char>,
    value: Seq<char>,
    after: Seq<char>,
)
    requires
        key.len() > 0,
        forall|i: int| 0 <= i < before.len() ==> !text::occurs_at(before + key + value + after, key, i),
        before.len() > 0 ==> !('0' <= before.last() <= '9' || 'A' <= before.last() <= 'Z' || 'a'
            <= before.last() <= 'z' || before.last() == '_' || before.last() == '.'),
        is_whole_value(value),
        after.len() > 0 ==> after[0] == ',' || after[0] == ' ' || after[0] == '"' || after[0] == '}'
            || after[0] == ')',
    ensures
        field_value(before + key + value + after, key) == Some(value),
{
    let line = before + key + value + after;
    let n = before.len() as int;
    text::lemma_find_from(line, key, 0);
    assert(line.subrange(n, n + key.len()) =~= key);
    assert(text::occurs_at(line, key, n));
    assert(text::find_from(line, key, 0) == Some(n));
    assert(line.skip((n + key.len()) as int) =~= value + after);
    if n > 0 {
        assert(line[n - 1] == before.last());
    }
    let stops = field_stops();
    assert(stops[0] == ',' && stops[1] == ' ' && stops[2] == '"' && stops[3] == '}' && stops[4]
        == ')');
    lemma_value_at(line, (n + key.len()) as int, value, after, stops);
}

/// What is only the end of a longer name is not the field.
pub proof fn law_end_of_a_longer_name_is_no_field(line: Seq<char>, key: Seq<char>, from: int)
    requires
        0 <= from,
        forall|i: int|
            from <= i && #[trigger] text::occurs_at(line, key, i) ==> i > 0 && ('0' <= line[i - 1]
                <= '9' || 'A' <= line[i - 1] <= 'Z' || 'a' <= line[i - 1] <= 'z' || line[i - 1]
                == '_' || line[i - 1] == '.'),
    ensures
        field_from(line, key, from) is None,
    decreases line.len() - from,
{
    text::lemma_find_from(line, key, from);
    match text::find_from(line, key, from) {
        Some(i) => {
            assert(text::occurs_at(line, key, i));
            if key.len() > 0 && i + key.len() <= line.len() {
                law_end_of_a_longer_name_is_no_field(line, key, i + key.len());
            }
        },
        None => {},
    }
}

/// A model is read behind the first marker, up to the first comma, blank or semicolon, or to the
/// end of the line; without the marker there is none.
pub proof fn law_model_is_read(
    before: Seq<char>,
    marker: Seq<char>,
    value: Seq<char>,
    after: Seq<char>,
    line: Seq<char>,
)
    requires
        forall|i: int|
            0 <= i < before.len() ==> !text::occurs_at(before + marker + value + after, marker, i),
        is_whole_model(value),
        after.len() > 0 ==> after[0] == ',' || after[0] == ' ' || after[0] == ';',
    ensures
        model_value(before + marker + value + after, marker) == Some(value),
        !text::includes(line, marker) ==> model_value(line, marker) is None,
{
    let whole = before + marker + value + after;
    let n = before.len() as int;
    text::lemma_find_from(whole, marker, 0);
    text::lemma_find_from(line, marker, 0);
    assert(whole.subrange(n, n + marker.len()) =~= marker);
    assert(text::occurs_at(whole, marker, n));
    assert(text::find_from(whole, marker, 0) == Some(n));
    assert(whole.skip((n + marker.len()) as int) =~= value + after);
    let stops = model_stops();
    assert(stops[0] == ',' && stops[1] == ' ' && stops[2] == ';');
    lemma_value_at(whole, (n + marker.len()) as int, value, after, stops);
}

/// The model of a request is that of the first field `model=`, not of a longer name's end.
pub proof fn law_request_model_is_read(before: Seq<char>, value: Seq<char>, after: Seq<char>)
    requires
        forall|i: int|
            0 <= i < before.len() && #[trigger] text::occurs_at(
                before + "model="@ + value + after,
                "model="@,
                i,
            ) ==> i > 0 && is_field_char(before[i - 1]),
        before.len() > 0 ==> !('0' <= before.last() <= '9' || 'A' <= before.last() <= 'Z' || 'a'
            <= before.last() <= 'z' || before.last() == '_' || before.last() == '.'),
        is_whole_model(value),
        after.len() > 0 ==> after[0] == ',' || after[0] == ' ' || after[0] == ';',
    ensures
        request_model_value(before + "model="@ + value + after) == Some(value),
{
    let key = "model="@;
    let line = before + key + value + after;
    let n = before.len() as int;
    reveal_strlit("model=");
    assert(key.len() == 6);
    assert(line.subrange(n, n + 6) =~= key);
    assert(text::occurs_at(line, key, n));
    if n > 0 {
        assert(line[n - 1] == before.last());
    }
    assert forall|i: int| 0 <= i < n && #[trigger] text::occurs_at(line, key, i) implies
        !at_boundary(line, i) by {
        assert(line[i - 1] == before[i - 1]);
    }
    lemma_occurrences_are_apart(line, 0, n);
    let rest = line.skip(n);
    assert(rest =~= Seq::<char>::empty() + key + value + after);
    law_model_is_read(seq![], key, value, after, line);
}

/// Two occurrences of `model=` do not overlap, so that the search misses none.
proof fn lemma_occurrences_are_apart(line: Seq<char>, from: int, n: int)
    requires
        0 <= from <= n,
        text::occurs_at(line, "model="@, n),
        at_boundary(line, n),
        forall|i: int|
            from <= i < n && #[trigger] text::occurs_at(line, "model="@, i) ==> !at_boundary(
                line,
                i,
            ),
    ensures
        boundary_from(line, "model="@, from) == Some(n),
    decreases n - from,
{
    let key = "model="@;
    reveal_strlit("model=");
    assert(key.len() == 6);
    text::lemma_find_from(line, key, from);
    let i = text::find_from(line, key, from)->0;
    assert(text::occurs_at(line, key, i));
    if i < n {
        assert(n >= i + 6) by {
            let d = n - i;
            if d < 6 {
                assert(line.subrange(n, n + 6)[0] == key[0]);
                assert(line.subrange(i, i + 6)[d] == key[d]);
                assert(line[n] == 'm');
                assert(key[d] == 'm');
            }
        }
        lemma_occurrences_are_apart(line, i + 6, n);
    }
}

/// A digit or a letter up to F in either case, or a hyphen.
pub open spec fn are_id_chars(t: Seq<char>) -> bool {
    forall|i: int|
        0 <= i < t.len() ==> '0' <= #[trigger] t[i] <= '9' || 'A' <= t[i] <= 'F' || 'a' <= t[i]
            <= 'f' || t[i] == '-'
}

/// The request and the session at a line's end are read from the last brackets, where they hold
/// thirty-two characters and thirty-six, with a slash between them.
pub proof fn law_pair_is_read(
    before: Seq<char>,
    request: Seq<char>,
    session: Seq<char>,
    after: Seq<char>,
)
    requires
        forall|i: int| 0 <= i < before.len() ==> #[trigger] before[i] != '(',
        forall|i: int| 0 <= i < after.len() ==> #[trigger] after[i] != '(',
        request.len() == 32,
        session.len() == 36,
        are_id_chars(request),
        are_id_chars(session),
    ensures
        pair_value(before.push('(') + request.push('/') + session.push(')') + after) == Some(
            (request, session),
        ),
{
    let line = before.push('(') + request.push('/') + session.push(')') + after;
    let n = before.len() as int;
    let inner = request.push('/') + session;
    let close = n + 1 + inner.len();
    text::lemma_index_from(line, '(', 0);
    text::lemma_index_from(line, ')', n + 1);
    text::lemma_index_from(line, '(', close);
    assert forall|i: int| 0 <= i < inner.len() implies #[trigger] inner[i] == line[n + 1 + i] by {}
    assert forall|i: int| 0 <= i < inner.len() implies #[trigger] inner[i] != ')' && inner[i] != '('
        by {
        if i < 32 {
            assert(inner[i] == request[i]);
        } else if i > 32 {
            assert(inner[i] == session[i - 33]);
        }
    }
    assert(line[n] == '(' && line[close] == ')');
    assert forall|i: int| 0 <= i < n implies #[trigger] line[i] != '(' by {
        assert(line[i] == before[i]);
    }
    assert forall|i: int| n + 1 <= i < close implies #[trigger] line[i] != ')' by {
        assert(line[i] == inner[i - n - 1]);
    }
    assert forall|i: int| close <= i < line.len() implies #[trigger] line[i] != '(' by {
        if i > close {
            assert(line[i] == after[i - close - 1]);
        }
    }
    assert(text::index_from(line, '(', 0) == Some(n));
    assert(text::index_from(line, ')', n + 1) == Some(close));
    assert(text::index_from(line, '(', close) is None);
    assert(pair_from(line, close) is None);
    assert(line.subrange(n + 1, close) =~= inner);
    lemma_pair_of(request, session);
}

proof fn lemma_pair_of(request: Seq<char>, session: Seq<char>)
    requires
        request.len() == 32,
        session.len() == 36,
        are_id_chars(request),
        are_id_chars(session),
    ensures
        pair_of(request.push('/') + session) == Some((request, session)),
{
    let t = request.push('/') + session;
    text::lemma_index_from(t, '/', 0);
    assert(t[32] == '/');
    assert forall|i: int| 0 <= i < 32 implies #[trigger] t[i] != '/' by {
        assert(t[i] == request[i]);
    }
    assert(text::index_from(t, '/', 0) == Some(32int));
    assert(t.take(32) =~= request);
    assert(t.skip(33) =~= session);
}

/// Of two such pairs on a line the last one counts.
pub proof fn law_last_pair_counts(line: Seq<char>, from: int, open: int, close: int)
    requires
        0 <= from <= open < close < line.len(),
        line[open] == '(',
        line[close] == ')',
        forall|i: int| from <= i < open ==> #[trigger] line[i] != '(',
        forall|i: int| open < i < close ==> #[trigger] line[i] != ')',
        pair_from(line, close) is Some,
    ensures
        pair_from(line, from) == pair_from(line, close),
{
    text::lemma_index_from(line, '(', from);
    text::lemma_index_from(line, ')', open + 1);
    assert(text::index_from(line, '(', from) == Some(open));
    assert(text::index_from(line, ')', open + 1) == Some(close));
}

/// A line without an opening bracket names no pair, nor does one whose only brackets hold
/// something of another length.
pub proof fn law_other_brackets_are_no_pair(before: Seq<char>, inner: Seq<char>, after: Seq<char>)
    requires
        forall|i: int| 0 <= i < before.len() ==> #[trigger] before[i] != '(',
        forall|i: int| 0 <= i < inner.len() ==> #[trigger] inner[i] != ')',
        forall|i: int| 0 <= i < after.len() ==> #[trigger] after[i] != '(',
        inner.len() != 69,
    ensures
        pair_value(before) is None,
        pair_value(before.push('(') + inner.push(')') + after) is None,
{
    let line = before.push('(') + inner.push(')') + after;
    let n = before.len() as int;
    let close = n + 1 + inner.len();
    text::lemma_index_from(before, '(', 0);
    text::lemma_index_from(line, '(', 0);
    text::lemma_index_from(line, ')', n + 1);
    text::lemma_index_from(line, '(', close);
    text::lemma_index_from(inner, '/', 0);
    assert(line[n] == '(' && line[close] == ')');
    assert forall|i: int| 0 <= i < n implies #[trigger] line[i] != '(' by {
        assert(line[i] == before[i]);
    }
    assert forall|i: int| n + 1 <= i < close implies #[trigger] line[i] != ')' by {
        assert(line[i] == inner[i - n - 1]);
    }
    assert forall|i: int| close <= i < line.len() implies #[trigger] line[i] != '(' by {
        if i > close {
            assert(line[i] == after[i - close - 1]);
        }
    }
    assert(text::index_from(line, '(', 0) == Some(n));
    assert(text::index_from(line, ')', n + 1) == Some(close));
    assert(text::index_from(line, '(', close) is None);
    assert(pair_from(line, close) is None);
    assert(line.subrange(n + 1, close) =~= inner);
}

/// The value of a digit.
pub open spec fn digit_value(c: char) -> int {
    c as u32 - '0' as u32
}

/// The offset, with its sign, where it is less than a day.
pub open spec fn within_a_day(sign: char, seconds: int) -> Option<int> {
    if seconds >= 86_400 {
        None
    } else if sign == '-' {
        Some(-seconds)
    } else {
        Some(seconds)
    }
}

/// An offset from UTC is a sign, one or two digits for the hours, and for the minutes none or two
/// digits, with a colon before them or without; it must be less than a day.
pub proof fn law_offset_is_read(
    sign: char,
    a: char,
    b: char,
    c: char,
    d: char,
    after: Seq<char>,
)
    requires
        sign == '+' || sign == '-',
        '0' <= a <= '9',
        '0' <= b <= '9',
        '0' <= c <= '9',
        '0' <= d <= '9',
        after.len() > 0 ==> !('0' <= after[0] <= '9') && after[0] != ':',
    ensures
        ({
            let hours = digit_value(a) * 10 + digit_value(b);
            let minutes = digit_value(c) * 10 + digit_value(d);
            &&& signed_offset(seq![sign] + seq![a] + after) == within_a_day(
                sign,
                digit_value(a) * 3600,
            )
            &&& signed_offset(seq![sign] + seq![a, b] + after) == within_a_day(sign, hours * 3600)
            &&& signed_offset(seq![sign] + seq![a, b, c, d] + after) == within_a_day(
                sign,
                hours * 3600 + minutes * 60,
            )
            &&& signed_offset(seq![sign] + seq![a, b, ':', c, d] + after) == within_a_day(
                sign,
                hours * 3600 + minutes * 60,
            )
        }),
{
    lemma_run_ends(after);
    lemma_hours_only(a, b);
    lemma_hours_with_minutes(a, b, c, d);
    lemma_signed(sign, seq![a], after);
    lemma_signed(sign, seq![a, b], after);
    lemma_signed(sign, seq![a, b, c, d], after);
    lemma_signed(sign, seq![a, b, ':', c, d], after);
}

proof fn lemma_hours_only(a: char, b: char)
    requires
        '0' <= a <= '9',
        '0' <= b <= '9',
    ensures
        hours_and_minutes(seq![a]) == Some((digit_value(a), 0int)),
        hours_and_minutes(seq![a, b]) == Some((digit_value(a) * 10 + digit_value(b), 0int)),
{
    lemma_two_digits(a, b);
    text::lemma_index_from(seq![a], ':', 0);
    text::lemma_index_from(seq![a, b], ':', 0);
}

proof fn lemma_hours_with_minutes(a: char, b: char, c: char, d: char)
    requires
        '0' <= a <= '9',
        '0' <= b <= '9',
        '0' <= c <= '9',
        '0' <= d <= '9',
    ensures
        hours_and_minutes(seq![a, b, c, d]) == Some(
            (digit_value(a) * 10 + digit_value(b), digit_value(c) * 10 + digit_value(d)),
        ),
        hours_and_minutes(seq![a, b, ':', c, d]) == Some(
            (digit_value(a) * 10 + digit_value(b), digit_value(c) * 10 + digit_value(d)),
        ),
{
    lemma_two_digits(a, b);
    lemma_two_digits(c, d);
    let four = seq![a, b, c, d];
    text::lemma_index_from(four, ':', 0);
    assert(four[0] == a && four[1] == b && four[2] == c && four[3] == d);
    assert(text::index_from(four, ':', 0) is None);
    assert(four.take(2) =~= seq![a, b]);
    assert(four.skip(2) =~= seq![c, d]);
    let t = seq![a, b, ':', c, d];
    text::lemma_index_from(t, ':', 0);
    assert(t[0] == a && t[1] == b && t[2] == ':');
    assert(text::index_from(t, ':', 0) == Some(2int));
    assert(t.take(2) =~= seq![a, b]);
    assert(t.skip(3) =~= seq![c, d]);
}

proof fn lemma_two_digits(a: char, b: char)
    requires
        '0' <= a <= '9',
        '0' <= b <= '9',
    ensures
        number_of(seq![a]) == Some(digit_value(a)),
        number_of(seq![a, b]) == Some(digit_value(a) * 10 + digit_value(b)),
{
    reveal_with_fuel(decimal, 3);
    let one = seq![a];
    let two = seq![a, b];
    assert(two.drop_last() =~= one);
    assert(one.drop_last() =~= Seq::<char>::empty());
    assert(one[0] == a && two[0] == a && two[1] == b);
    assert forall|i: int| 0 <= i < one.len() implies is_digit(#[trigger] one[i]) by {}
    assert forall|i: int| 0 <= i < two.len() implies is_digit(#[trigger] two[i]) by {
        assert(i == 0 || i == 1);
    }
}

proof fn lemma_run_ends(after: Seq<char>)
    requires
        after.len() > 0 ==> !('0' <= after[0] <= '9') && after[0] != ':',
    ensures
        run_of_digits(after) == 0,
{
}

proof fn lemma_run(t: Seq<char>, after: Seq<char>)
    requires
        forall|i: int| 0 <= i < t.len() ==> is_digit(#[trigger] t[i]) || t[i] == ':',
        run_of_digits(after) == 0,
    ensures
        run_of_digits(t + after) == t.len(),
    decreases t.len(),
{
    if t.len() == 0 {
        assert(t + after =~= after);
    } else {
        let rest = t.drop_first();
        assert forall|i: int| 0 <= i < rest.len() implies is_digit(#[trigger] rest[i]) || rest[i]
            == ':' by {
            assert(rest[i] == t[i + 1]);
        }
        assert((t + after)[0] == t[0]);
        assert((t + after).drop_first() =~= rest + after);
        lemma_run(rest, after);
    }
}

proof fn lemma_signed(sign: char, t: Seq<char>, after: Seq<char>)
    requires
        sign == '+' || sign == '-',
        forall|i: int| 0 <= i < t.len() ==> is_digit(#[trigger] t[i]) || t[i] == ':',
        run_of_digits(after) == 0,
    ensures
        signed_offset(seq![sign] + t + after) == match hours_and_minutes(t) {
            Some((h, m)) => {
                let total = if sign == '+' {
                    h * 3600 + m * 60
                } else {
                    -(h * 3600 + m * 60)
                };
                if -86_400 < total < 86_400 {
                    Some(total)
                } else {
                    None
                }
            },
            None => None,
        },
{
    let whole = seq![sign] + t + after;
    lemma_run(t, after);
    assert(whole[0] == sign);
    assert(whole.drop_first() =~= t + after);
    assert((t + after).take(t.len() as int) =~= t);
}

/// The offset stands behind the first `UTC`; without one there is none.
pub proof fn law_offset_stands_behind_utc(before: Seq<char>, after: Seq<char>, t: Seq<char>)
    requires
        forall|i: int| 0 <= i < before.len() ==> !text::occurs_at(before + "UTC"@ + after, "UTC"@, i),
    ensures
        utc_offset(before + "UTC"@ + after) == signed_offset(after),
        !text::includes(t, "UTC"@) ==> utc_offset(t) is None,
{
    reveal_strlit("UTC");
    let whole = before + "UTC"@ + after;
    let n = before.len() as int;
    text::lemma_find_from(whole, "UTC"@, 0);
    text::lemma_find_from(t, "UTC"@, 0);
    assert(whole.subrange(n, n + 3) =~= "UTC"@);
    assert(text::occurs_at(whole, "UTC"@, n));
    assert(text::find_from(whole, "UTC"@, 0) == Some(n));
    assert(whole.skip(n + 3) =~= after);
}

/// The time of a reset is read behind the first marker: nineteen characters of ASCII give the time
/// of day and date, and what follows them the offset.
pub proof fn law_reset_stands_behind_the_marker(
    before: Seq<char>,
    marker: Seq<char>,
    stamp: Seq<char>,
    after: Seq<char>,
)
    requires
        marker.len() > 0,
        forall|i: int|
            0 <= i < before.len() ==> !text::occurs_at(before + marker + stamp + after, marker, i),
        stamp.len() == 19,
        forall|i: int| 0 <= i < 19 ==> (#[trigger] stamp[i]) as u32 <= 0x7f,
    ensures
        reset_after(before + marker + stamp + after, marker) == match (
            clock::naive_time(stamp, "%Y-%m-%d %H:%M:%S"@),
            utc_offset(stamp + after),
        ) {
            (Some(naive), Some(offset)) => Some(clock::time_at_offset(naive, offset as i32)),
            _ => None,
        },
{
    let line = before + marker + stamp + after;
    let n = before.len() as int;
    text::lemma_find_from(line, marker, 0);
    assert(line.subrange(n, n + marker.len()) =~= marker);
    assert(text::occurs_at(line, marker, n));
    assert(text::find_from(line, marker, 0) == Some(n));
    let rest = line.skip((n + marker.len()) as int);
    assert(rest =~= stamp + after);
    assert forall|i: int| 0 <= i < 19 implies (#[trigger] rest[i]) as u32 <= 0x7f by {
        assert(rest[i] == stamp[i]);
    }
    lemma_cut_ascii(rest, 19);
    assert(rest.take(19) =~= stamp);
}

proof fn lemma_cut_ascii(t: Seq<char>, n: int)
    requires
        0 <= n <= t.len(),
        forall|i: int| 0 <= i < n ==> (#[trigger] t[i]) as u32 <= 0x7f,
    ensures
        cut(t, n) == Some(n),
    decreases n,
{
    if n > 0 {
        let rest = t.drop_first();
        assert forall|i: int| 0 <= i < n - 1 implies (#[trigger] rest[i]) as u32 <= 0x7f by {
            assert(rest[i] == t[i + 1]);
        }
        assert(t[0] as u32 <= 0x7f);
        lemma_cut_ascii(rest, n - 1);
    }
}

/// The Chinese words for a reset come before the English ones; without either there is no reset.
pub proof fn law_reset_is_told_in_either_language(line: Seq<char>)
    ensures
        reset_after(line, "将在 "@) matches Some(r) ==> reset_value(line) == r,
        reset_after(line, "将在 "@) is None ==> (reset_after(line, "will reset at "@) matches Some(
            r,
        ) ==> reset_value(line) == r),
        !text::includes(line, "将在 "@) && !text::includes(line, "will reset at "@) ==> reset_value(
            line,
        ) is None,
{
    text::lemma_find_from(line, "将在 "@, 0);
    text::lemma_find_from(line, "will reset at "@, 0);
}

/// The head of a line in brackets is what stands in them, without white space around it; the first
/// word is what stands before the first white space.
pub proof fn law_head_of_a_line_is_read(head: Seq<char>, rest: Seq<char>, word: Seq<char>)
    requires
        forall|i: int| 0 <= i < head.len() ==> #[trigger] head[i] != ']',
        forall|i: int| 0 <= i < word.len() ==> !text::is_space(#[trigger] word[i]),
        rest.len() > 0 ==> text::is_space(rest[0]),
    ensures
        bracketed_head(seq!['['] + head.push(']') + rest) == Some(text::trim(head)),
        first_word(word + rest) == word,
    decreases word.len(),
{
    let t = seq!['['] + head.push(']') + rest;
    let tail = head.push(']') + rest;
    let n = head.len() as int;
    assert(t[0] == '[');
    assert(t.drop_first() =~= tail);
    text::lemma_index_from(tail, ']', 0);
    assert(tail[n] == ']');
    assert forall|i: int| 0 <= i < n implies #[trigger] tail[i] != ']' by {
        assert(tail[i] == head[i]);
    }
    assert(text::index_from(tail, ']', 0) == Some(n));
    assert(tail.take(n) =~= head);
    if word.len() == 0 {
        assert(word + rest =~= rest);
        assert(first_word(rest) =~= word);
    } else {
        let less = word.drop_first();
        assert forall|i: int| 0 <= i < less.len() implies !text::is_space(#[trigger] less[i]) by {
            assert(less[i] == word[i + 1]);
        }
        assert((word + rest)[0] == word[0]);
        assert((word + rest).drop_first() =~= less + rest);
        law_head_of_a_line_is_read(head, rest, less);
        assert(seq![word[0]] + less =~= word);
    }
}

/// A line that starts with a time of its own was written then, whatever the local clock; one that
/// starts with neither a time nor brackets tells no time.
pub proof fn law_own_time_of_a_line_counts(line: Seq<char>, stamp: Option<i64>, ms: i64)
    ensures
        clock::rfc3339_time(first_word(text::trim_left(line))) == Some(ms) ==> (is_stamp(
            line,
            stamp,
        ) <==> stamp == Some(ms)),
        clock::rfc3339_time(first_word(text::trim_left(line))) is None && (text::trim_left(
            line,
        ).len() == 0 || text::trim_left(line)[0] != '[') ==> (is_stamp(line, stamp) <==> stamp
            is None),
        clock::rfc3339_time(first_word(text::trim_left(line))) is None && bracketed_head(
            text::trim_left(line),
        ) is Some && clock::naive_time(
            bracketed_head(text::trim_left(line))->0,
            "%m/%d/%Y, %I:%M:%S %p%.3f"@,
        ) is None && is_stamp(line, stamp) ==> stamp is None,
{
}

/// A text is cut where its first characters take so many bytes in UTF-8, and only there.
pub proof fn law_text_is_cut_by_its_bytes(t: Seq<char>, bytes: int)
    ensures
        cut(t, bytes) matches Some(k) ==> 0 <= k <= t.len() && vstd::utf8::encode_utf8(
            t.take(k),
        ).len() == bytes,
        cut(t, bytes) is None ==> forall|k: int|
            0 <= k <= t.len() ==> vstd::utf8::encode_utf8(#[trigger] t.take(k)).len() != bytes,
    decreases t.len(),
{
    let none = Seq::<char>::empty();
    assert(t.take(0) =~= none);
    assert(vstd::utf8::encode_utf8(none).len() == 0);
    if bytes != 0 && t.len() > 0 {
        let rest = t.drop_first();
        let w = width(t[0]);
        law_text_is_cut_by_its_bytes(rest, bytes - w);
        assert forall|k: int| 1 <= k <= t.len() implies vstd::utf8::encode_utf8(
            #[trigger] t.take(k),
        ).len() == w + vstd::utf8::encode_utf8(rest.take(k - 1)).len() by {
            vstd::utf8::char_is_scalar(t[0]);
            assert(t.take(k).drop_first() =~= rest.take(k - 1));
            assert(t.take(k)[0] == t[0]);
        }
        if cut(t, bytes) is None {
            assert forall|k: int| 0 <= k <= t.len() implies vstd::utf8::encode_utf8(
                #[trigger] t.take(k),
            ).len() != bytes by {
                if k > 0 {
                    if bytes > 0 {
                        assert(cut(rest, bytes - w) is None);
                        assert(vstd::utf8::encode_utf8(rest.take(k - 1)).len() != bytes - w);
                    }
                }
            }
        }
    } else if bytes != 0 {
        assert forall|k: int| 0 <= k <= t.len() implies vstd::utf8::encode_utf8(
            #[trigger] t.take(k),
        ).len() != bytes by {}
    }
}

/// What is read as a pair is thirty-two and thirty-six characters of an id with a slash between
/// them, and nothing else.
pub proof fn law_pair_holds_two_ids(t: Seq<char>)
    ensures
        pair_of(t) matches Some(pair) ==> {
            &&& pair.0.len() == 32
            &&& pair.1.len() == 36
            &&& are_id_chars(pair.0)
            &&& are_id_chars(pair.1)
            &&& t == pair.0.push('/') + pair.1
        },
{
    text::lemma_index_from(t, '/', 0);
    match text::index_from(t, '/', 0) {
        Some(k) => {
            assert(t =~= t.take(k).push('/') + t.skip(k + 1));
        },
        None => {},
    }
}

/// One more digit makes ten times the number and the digit, as long as 32 signed bits hold it; what
/// holds anything but digits, or nothing, is no number.
pub proof fn law_number_is_decimal(t: Seq<char>, n: int, c: char, k: int)
    ensures
        number_of(t) == Some(n) && '0' <= c <= '9' ==> number_of(t.push(c)) == if n * 10
            + digit_value(c) <= 0x7fff_ffff {
            Some(n * 10 + digit_value(c))
        } else {
            None
        },
        '0' <= c <= '9' ==> number_of(seq![c]) == Some(digit_value(c)),
        0 <= k < t.len() && !('0' <= t[k] <= '9') ==> number_of(t) is None,
        number_of(seq![]) is None,
{
    let more = t.push(c);
    assert(more.drop_last() =~= t);
    if number_of(t) == Some(n) && '0' <= c <= '9' {
        assert forall|i: int| 0 <= i < more.len() implies is_digit(#[trigger] more[i]) by {
            if i < t.len() {
                assert(more[i] == t[i]);
            }
        }
    }
    if '0' <= c <= '9' {
        lemma_two_digits(c, c);
    }
    if 0 <= k < t.len() && !('0' <= t[k] <= '9') {
        assert(!is_digit(t[k]));
    }
}

/// Hours and minutes are what stands before and after the first colon; without a colon only one,
/// two or four characters are read.
pub proof fn law_minutes_follow_the_colon(h: Seq<char>, m: Seq<char>)
    requires
        forall|i: int| 0 <= i < h.len() ==> #[trigger] h[i] != ':',
    ensures
        hours_and_minutes(h.push(':') + m) == match (number_of(h), number_of(m)) {
            (Some(a), Some(b)) => Some((a, b)),
            _ => None,
        },
        h.len() != 1 && h.len() != 2 && h.len() != 4 ==> hours_and_minutes(h) is None,
{
    let whole = h.push(':') + m;
    let n = h.len() as int;
    text::lemma_index_from(whole, ':', 0);
    text::lemma_index_from(h, ':', 0);
    assert(whole[n] == ':');
    assert forall|i: int| 0 <= i < n implies #[trigger] whole[i] != ':' by {
        assert(whole[i] == h[i]);
    }
    assert(text::index_from(whole, ':', 0) == Some(n));
    assert(whole.take(n) =~= h);
    assert(whole.skip(n + 1) =~= m);
}

/// A marker or a field's name with no value behind it gives nothing.
pub proof fn law_missing_value_is_none(before: Seq<char>, key: Seq<char>, after: Seq<char>)
    requires
        key.len() > 0,
        forall|i: int| i != before.len() ==> !#[trigger] text::occurs_at(before + key + after, key, i),
        after.len() > 0 ==> after[0] == ',' || after[0] == ' ',
    ensures
        model_value(before + key + after, key) is None,
        field_value(before + key + after, key) is None,
{
    let line = before + key + after;
    let n = before.len() as int;
    let none = Seq::<char>::empty();
    text::lemma_find_from(line, key, 0);
    text::lemma_find_from(line, key, (n + key.len()) as int);
    assert(line.subrange(n, n + key.len()) =~= key);
    assert(text::occurs_at(line, key, n));
    assert(text::find_from(line, key, 0) == Some(n));
    assert(line.skip((n + key.len()) as int) =~= none + after);
    assert(text::trim(none) =~= none);
    let fields = field_stops();
    let models = model_stops();
    assert(fields[0] == ',' && fields[1] == ' ' && models[0] == ',' && models[1] == ' ');
    lemma_value_at(line, (n + key.len()) as int, none, after, fields);
    lemma_value_at(line, (n + key.len()) as int, none, after, models);
    assert(text::find_from(line, key, (n + key.len()) as int) is None);
    assert(field_from(line, key, (n + key.len()) as int) is None);
}

} // verus!
