//! Reading a server log: the configuration it embeds, the cycle starts and
//! the state changes of each client, turned into runs, instant events,
//! metric points and a summary. The caller hands the lines over one at a
//! time and turns the embedded configuration text into a configuration.
use vstd::prelude::*;

use std::collections::HashMap;

use crate::config::{has_client, ClientConfig, SchedulerConfig};
use crate::log_store::LogStore;
use crate::text::is_digit;
use crate::vis::{
    ActualCycle, ActualExecution, ActualInstantEvent, ActualMetricPoint, ExecutionStatus,
    InstantEventType, LogSummary,
};

verus! {

// ---------------------------------------------------------------------------
// Text.

/// `t` occurs in `s` at `i`.
pub open spec fn occurs_at(s: Seq<char>, t: Seq<char>, i: int) -> bool {
    0 <= i && i + t.len() <= s.len() && s.subrange(i, i + t.len()) == t
}

/// `t` occurs in `s` at `i` and nowhere before.
pub open spec fn first_occurrence(s: Seq<char>, t: Seq<char>, i: int) -> bool {
    occurs_at(s, t, i) && forall|j: int| 0 <= j < i ==> !occurs_at(s, t, j)
}

/// `t` occurs in `s`.
pub open spec fn has_sub(s: Seq<char>, t: Seq<char>) -> bool {
    exists|i: int| occurs_at(s, t, i)
}

/// Where `t` first occurs in `s`, if it does.
pub open spec fn find_sub(s: Seq<char>, t: Seq<char>) -> Option<int> {
    if has_sub(s, t) {
        Some(choose|i: int| first_occurrence(s, t, i))
    } else {
        None
    }
}

proof fn lemma_first_occurrence_unique(s: Seq<char>, t: Seq<char>, i: int)
    requires
        first_occurrence(s, t, i),
    ensures
        find_sub(s, t) == Some(i),
{
    let k = choose|k: int| first_occurrence(s, t, k);
    assert(first_occurrence(s, t, k));
    if k < i {
        assert(!occurs_at(s, t, k));
    } else if i < k {
        assert(!occurs_at(s, t, i));
    }
}

/// Whether `t` occurs in `s` at `i`.
fn occurs_at_exec(s: &Vec<char>, t: &Vec<char>, i: usize) -> (r: bool)
    requires
        i <= s@.len(),
    ensures
        r == occurs_at(s@, t@, i as int),
{
    if t.len() > s.len() - i {
        return false;
    }
    let mut k: usize = 0;
    while k < t.len()
        invariant
            i <= s@.len(),
            i + t@.len() <= s.len(),
            k <= t@.len(),
            forall|q: int| 0 <= q < k ==> s@[i + q] == t@[q],
        decreases t@.len() - k,
    {
        if s[i + k] != t[k] {
            assert(s@.subrange(i as int, i + t@.len())[k as int] != t@[k as int]);
            return false;
        }
        k += 1;
    }
    assert(s@.subrange(i as int, i + t@.len()) =~= t@);
    true
}

/// Where `t` first occurs in `s`: see `find_sub`.
pub fn find_sub_exec(s: &Vec<char>, t: &Vec<char>) -> (r: Option<usize>)
    ensures
        match r {
            Some(i) => find_sub(s@, t@) == Some(i as int) && first_occurrence(s@, t@, i as int),
            None => find_sub(s@, t@) is None,
        },
{
    let mut i: usize = 0;
    while i < s.len()
        invariant
            i <= s@.len(),
            forall|j: int| 0 <= j < i ==> !occurs_at(s@, t@, j),
        decreases s@.len() - i,
    {
        if occurs_at_exec(s, t, i) {
            proof {
                lemma_first_occurrence_unique(s@, t@, i as int);
            }
            return Some(i);
        }
        i += 1;
    }
    if occurs_at_exec(s, t, i) {
        proof {
            lemma_first_occurrence_unique(s@, t@, i as int);
        }
        return Some(i);
    }
    assert(!has_sub(s@, t@)) by {
        if has_sub(s@, t@) {
            let j = choose|j: int| occurs_at(s@, t@, j);
            assert(j <= s@.len());
        }
    }
    None
}

/// Whether `t` occurs in `s`.
pub fn contains_exec(s: &Vec<char>, t: &str) -> (r: bool)
    ensures
        r == has_sub(s@, t@),
{
    let tv = crate::text::chars_of(t);
    match find_sub_exec(s, &tv) {
        Some(_) => true,
        None => false,
    }
}

/// Whether `c` has the Unicode `White_Space` property: the controls from
/// tab to carriage return, the space, next line, no-break space, Ogham
/// space mark, the spaces from en quad to hair space, the line and
/// paragraph separators, the narrow no-break space, the medium mathematical
/// space and the ideographic space.
pub open spec fn unicode_space(c: char) -> bool {
    let v = c as u32;
    ||| 0x09 <= v <= 0x0d
    ||| v == 0x20
    ||| v == 0x85
    ||| v == 0xa0
    ||| v == 0x1680
    ||| 0x2000 <= v <= 0x200a
    ||| v == 0x2028
    ||| v == 0x2029
    ||| v == 0x202f
    ||| v == 0x205f
    ||| v == 0x3000
}

/// Whether `c` has the Unicode `White_Space` property, as
/// `char::is_whitespace` answers.
fn is_space(c: char) -> (r: bool)
    ensures
        r == unicode_space(c),
{
    let v = c as u32;
    (0x09 <= v && v <= 0x0d) || v == 0x20 || v == 0x85 || v == 0xa0 || v == 0x1680 || (0x2000 <= v
        && v <= 0x200a) || v == 0x2028 || v == 0x2029 || v == 0x202f || v == 0x205f || v == 0x3000
}

/// The position of the first character of `s` that is not white space, or
/// its length.
pub open spec fn lead_space(s: Seq<char>, i: int) -> bool {
    &&& 0 <= i <= s.len()
    &&& forall|j: int| 0 <= j < i ==> unicode_space(s[j])
    &&& i < s.len() ==> !unicode_space(s[i])
}

/// `s` without its leading white space.
pub open spec fn trim_start(s: Seq<char>) -> Seq<char> {
    s.skip(choose|i: int| lead_space(s, i))
}

/// `s` without its trailing white space.
pub open spec fn trim_end(s: Seq<char>) -> Seq<char>
    decreases s.len(),
{
    if s.len() > 0 && unicode_space(s.last()) {
        trim_end(s.drop_last())
    } else {
        s
    }
}

/// `s` without leading and trailing white space.
pub open spec fn trim(s: Seq<char>) -> Seq<char> {
    trim_end(trim_start(s))
}

proof fn lemma_lead_space_unique(s: Seq<char>, i: int)
    requires
        lead_space(s, i),
    ensures
        (choose|k: int| lead_space(s, k)) == i,
{
    let k = choose|k: int| lead_space(s, k);
    assert(lead_space(s, k));
    if k < i {
        assert(unicode_space(s[k]));
    } else if i < k {
        assert(unicode_space(s[i]));
    }
}

/// `s` without its leading white space.
fn trim_start_exec(s: &Vec<char>) -> (r: Vec<char>)
    ensures
        r@ == trim_start(s@),
{
    let mut i: usize = 0;
    while i < s.len() && is_space(s[i])
        invariant
            i <= s@.len(),
            forall|j: int| 0 <= j < i ==> unicode_space(s@[j]),
        decreases s@.len() - i,
    {
        i += 1;
    }
    proof {
        assert(lead_space(s@, i as int));
        lemma_lead_space_unique(s@, i as int);
    }
    let r = crate::text::sub_chars(s, i, s.len());
    assert(r@ =~= s@.skip(i as int));
    r
}

/// `s` without its trailing white space.
fn trim_end_exec(s: &Vec<char>) -> (r: Vec<char>)
    ensures
        r@ == trim_end(s@),
{
    let mut n: usize = s.len();
    assert(s@.take(n as int) =~= s@);
    while n > 0 && is_space(s[n - 1])
        invariant
            n <= s@.len(),
            trim_end(s@.take(n as int)) == trim_end(s@),
        decreases n,
    {
        proof {
            let t = s@.take(n as int);
            assert(t.drop_last() =~= s@.take(n - 1));
            assert(t.last() == s@[n - 1]);
        }
        n -= 1;
    }
    proof {
        let t = s@.take(n as int);
        if n > 0 {
            assert(t.last() == s@[n - 1]);
        }
    }
    let r = crate::text::sub_chars(s, 0, n);
    assert(r@ =~= s@.take(n as int));
    r
}

/// `s` without leading and trailing white space.
fn trim_exec(s: &Vec<char>) -> (r: Vec<char>)
    ensures
        r@ == trim(s@),
{
    let a = trim_start_exec(s);
    trim_end_exec(&a)
}

/// The text after the first occurrence of `tag` in `s`, if any.
pub open spec fn after_tag(s: Seq<char>, tag: Seq<char>) -> Option<Seq<char>> {
    match find_sub(s, tag) {
        Some(i) => Some(s.skip(i + tag.len())),
        None => None,
    }
}

/// The text after the first occurrence of `tag` in `s`, if any.
fn after_tag_exec(s: &Vec<char>, tag: &str) -> (r: Option<Vec<char>>)
    ensures
        match r {
            Some(v) => after_tag(s@, tag@) == Some(v@),
            None => after_tag(s@, tag@) is None,
        },
{
    let tv = crate::text::chars_of(tag);
    match find_sub_exec(s, &tv) {
        Some(i) => {
            let n = s.len();
            assert(i + tv@.len() <= n);
            let v = crate::text::sub_chars(s, i + tv.len(), s.len());
            assert(v@ =~= s@.skip(i + tv@.len()));
            Some(v)
        },
        None => None,
    }
}

/// The decimal value of the digits `d`.
pub open spec fn digits_value(d: Seq<char>) -> int
    decreases d.len(),
{
    if d.len() == 0 {
        0
    } else {
        digits_value(d.drop_last()) * 10 + (d.last() as int - '0' as int)
    }
}

/// The run of ASCII digits of `s` from `i` on ends at `j`.
pub open spec fn digits_end(s: Seq<char>, i: int, j: int) -> bool {
    &&& i <= j <= s.len()
    &&& forall|k: int| i <= k < j ==> is_digit(s[k])
    &&& j < s.len() ==> !is_digit(s[j])
}

/// The number written right after the first occurrence of `key` in `s`,
/// when its digits are there and the value is at most `max`.
pub open spec fn field_value(s: Seq<char>, key: Seq<char>, max: int) -> Option<int> {
    match find_sub(s, key) {
        None => None,
        Some(p) => {
            let i = p + key.len();
            let j = choose|j: int| digits_end(s, i, j);
            let v = digits_value(s.subrange(i, j));
            if j > i && v <= max {
                Some(v)
            } else {
                None
            }
        },
    }
}

proof fn lemma_digits_end_unique(s: Seq<char>, i: int, j: int)
    requires
        digits_end(s, i, j),
    ensures
        (choose|k: int| digits_end(s, i, k)) == j,
{
    let k = choose|k: int| digits_end(s, i, k);
    assert(digits_end(s, i, k));
    if k < j {
        assert(is_digit(s[k]));
    } else if j < k {
        assert(is_digit(s[j]));
    }
}

/// The number written right after the first occurrence of `key` in `s`:
/// see `field_value` with the largest `u64`.
pub fn field_u64(s: &Vec<char>, key: &str) -> (r: Option<u64>)
    ensures
        match r {
            Some(v) => field_value(s@, key@, u64::MAX as int) == Some(v as int),
            None => field_value(s@, key@, u64::MAX as int) is None,
        },
{
    let kv = crate::text::chars_of(key);
    let p = match find_sub_exec(s, &kv) {
        Some(p) => p,
        None => {
            return None;
        },
    };
    let n = s.len();
    assert(p + kv@.len() <= n);
    let i = p + kv.len();
    let mut j: usize = i;
    let mut v: u64 = 0;
    let mut overflow = false;
    while j < s.len() && '0' <= s[j] && s[j] <= '9'
        invariant
            i <= j <= s@.len(),
            forall|k: int| i <= k < j ==> is_digit(s@[k]),
            !overflow ==> v as int == digits_value(s@.subrange(i as int, j as int)),
            overflow ==> digits_value(s@.subrange(i as int, j as int)) > u64::MAX,
        decreases s@.len() - j,
    {
        let d = (s[j] as u32 - '0' as u32) as u64;
        proof {
            let t = s@.subrange(i as int, j + 1);
            assert(t.drop_last() =~= s@.subrange(i as int, j as int));
            assert(t.last() == s@[j as int]);
            lemma_digits_value_nonneg(s@.subrange(i as int, j as int));
        }
        if !overflow {
            if v > (u64::MAX - d) / 10 {
                overflow = true;
                assert(v * 10 + d > u64::MAX) by (nonlinear_arith)
                    requires
                        v > (u64::MAX - d) / 10,
                        d <= 9,
                ;
            } else {
                assert(v * 10 + d <= u64::MAX) by (nonlinear_arith)
                    requires
                        v <= (u64::MAX - d) / 10,
                        d <= 9,
                ;
                v = v * 10 + d;
            }
        } else {
            assert(digits_value(s@.subrange(i as int, j + 1)) >= digits_value(
                s@.subrange(i as int, j as int),
            ) * 10);
        }
        j += 1;
    }
    proof {
        assert(digits_end(s@, i as int, j as int));
        lemma_digits_end_unique(s@, i as int, j as int);
    }
    if overflow || j == i {
        None
    } else {
        Some(v)
    }
}

proof fn lemma_digits_value_nonneg(d: Seq<char>)
    requires
        forall|k: int| 0 <= k < d.len() ==> is_digit(d[k]),
    ensures
        digits_value(d) >= 0,
    decreases d.len(),
{
    if d.len() > 0 {
        lemma_digits_value_nonneg(d.drop_last());
    }
}


/// The number written right after the first occurrence of `key` in `s`:
/// see `field_value` with the largest `u16`.
pub fn field_u16(s: &Vec<char>, key: &str) -> (r: Option<u16>)
    ensures
        match r {
            Some(v) => field_value(s@, key@, u16::MAX as int) == Some(v as int),
            None => field_value(s@, key@, u16::MAX as int) is None,
        },
{
    match field_u64(s, key) {
        Some(v) => {
            if v <= u16::MAX as u64 {
                Some(v as u16)
            } else {
                None
            }
        },
        None => None,
    }
}

// ---------------------------------------------------------------------------
// Lines.

/// The text after the `<CONFIG>` tag, without its leading white space, if
/// the line has the tag.
pub open spec fn config_part(line: Seq<char>) -> Option<Seq<char>> {
    match after_tag(line, "<CONFIG>"@) {
        Some(rest) => Some(trim_start(rest)),
        None => None,
    }
}

/// The text after the `<STAT>` tag, trimmed, if the line has the tag.
pub open spec fn stat_part(line: Seq<char>) -> Option<Seq<char>> {
    match after_tag(line, "<STAT>"@) {
        Some(rest) => Some(trim(rest)),
        None => None,
    }
}

/// The state text reports a cycle start of the server.
pub open spec fn is_cycle_start(body: Seq<char>) -> bool {
    &&& !has_sub(body, "[Manager]"@)
    &&& !has_sub(body, "CID:"@)
    &&& has_sub(body, "CYC:"@)
    &&& has_sub(body, "START"@)
}

/// Where the configuration text of a line starts, if it has the tag.
fn config_start(line: &Vec<char>) -> (r: Option<usize>)
    ensures
        match r {
            Some(k) => k <= line@.len() && config_part(line@) == Some(line@.skip(k as int)),
            None => config_part(line@) is None,
        },
{
    let tv = crate::text::chars_of("<CONFIG>");
    let i = match find_sub_exec(line, &tv) {
        Some(i) => i,
        None => {
            return None;
        },
    };
    let n = line.len();
    assert(i + tv@.len() <= n);
    let start = i + tv.len();
    let ghost rest = line@.skip(start as int);
    let mut k: usize = start;
    while k < line.len() && is_space(line[k])
        invariant
            start <= k <= line@.len(),
            rest == line@.skip(start as int),
            forall|j: int| 0 <= j < k - start ==> unicode_space(rest[j]),
        decreases line@.len() - k,
    {
        assert(rest[k - start] == line@[k as int]);
        k += 1;
    }
    proof {
        if k < line@.len() {
            assert(rest[k - start] == line@[k as int]);
        }
        assert(lead_space(rest, k - start));
        lemma_lead_space_unique(rest, k - start);
        assert(rest.skip(k - start) =~= line@.skip(k as int));
    }
    Some(k)
}

fn stat_part_exec(line: &Vec<char>) -> (r: Option<Vec<char>>)
    ensures
        match r {
            Some(v) => stat_part(line@) == Some(v@),
            None => stat_part(line@) is None,
        },
{
    match after_tag_exec(line, "<STAT>") {
        Some(rest) => Some(trim_exec(&rest)),
        None => None,
    }
}

fn is_cycle_start_exec(body: &Vec<char>) -> (r: bool)
    ensures
        r == is_cycle_start(body@),
{
    !contains_exec(body, "[Manager]") && !contains_exec(body, "CID:") && contains_exec(body, "CYC:")
        && contains_exec(body, "START")
}

/// The microseconds since the epoch of the time that
/// `chrono::NaiveDateTime::parse_from_str` reads from `s` with the log's
/// time stamp format `%Y/%m/%d %H:%M:%S%.6f`, taken as UTC, if it reads one.
pub uninterp spec fn stamp_micros(s: Seq<char>) -> Option<i64>;

/// `chrono::NaiveDateTime::parse_from_str` with the log's time stamp format,
/// the result taken as UTC and given in microseconds since the epoch. The
/// contract names the result `stamp_micros(s)` and says no more of it.
#[verifier::external_body]
fn parse_stamp(s: &str) -> (r: Option<i64>)
    ensures
        r == stamp_micros(s@),
{
    chrono::NaiveDateTime::parse_from_str(s, "%Y/%m/%d %H:%M:%S%.6f").ok().map(
        |dt| dt.and_utc().timestamp_micros(),
    )
}

/// The number of bytes of the UTF-8 encoding of `c`.
pub open spec fn char_bytes(c: char) -> nat {
    if (c as u32) < 0x80 {
        1
    } else if (c as u32) < 0x800 {
        2
    } else if (c as u32) < 0x10000 {
        3
    } else {
        4
    }
}

/// The number of bytes of the UTF-8 encoding of `s`.
pub open spec fn bytes_len(s: Seq<char>) -> nat
    decreases s.len(),
{
    if s.len() == 0 {
        0
    } else {
        bytes_len(s.drop_last()) + char_bytes(s.last())
    }
}

/// The number of characters of `line` that make up its first `n` bytes,
/// when those bytes end on a character boundary.
pub open spec fn chars_in_bytes(line: Seq<char>, n: nat) -> Option<int> {
    if exists|k: int| 0 <= k <= line.len() && #[trigger] bytes_len(line.take(k)) == n {
        Some(choose|k: int| 0 <= k <= line.len() && #[trigger] bytes_len(line.take(k)) == n)
    } else {
        None
    }
}

/// The time stamp at the start of a line: its first 26 bytes, when the
/// line has them and they end on a character boundary, read as a time
/// stamp.
pub open spec fn line_stamp(line: Seq<char>) -> Option<i64> {
    match chars_in_bytes(line, 26) {
        Some(k) => stamp_micros(line.take(k)),
        None => None,
    }
}

/// A longer prefix has more bytes.
proof fn lemma_bytes_len_grows(line: Seq<char>, a: int, b: int)
    requires
        0 <= a < b <= line.len(),
    ensures
        bytes_len(line.take(a)) < bytes_len(line.take(b)),
    decreases b - a,
{
    assert(line.take(b).drop_last() =~= line.take(b - 1));
    if a < b - 1 {
        lemma_bytes_len_grows(line, a, b - 1);
    }
}

/// The UTF-8 length of a character, computed.
fn char_bytes_exec(c: char) -> (r: usize)
    ensures
        r == char_bytes(c),
{
    let v = c as u32;
    if v < 0x80 {
        1
    } else if v < 0x800 {
        2
    } else if v < 0x10000 {
        3
    } else {
        4
    }
}

fn line_stamp_exec(line: &str, chars: &Vec<char>) -> (r: Option<i64>)
    requires
        chars@ == line@,
    ensures
        r == line_stamp(line@),
{
    let mut bytes: usize = 0;
    let mut k: usize = 0;
    proof {
        assert(line@.take(0) =~= Seq::<char>::empty());
    }
    while k < chars.len() && bytes < 26
        invariant
            k <= chars@.len(),
            chars@ == line@,
            bytes == bytes_len(line@.take(k as int)),
            k > 0 ==> bytes_len(line@.take(k - 1)) < 26,
        decreases chars@.len() - k,
    {
        let c = chars[k];
        proof {
            assert(line@.take(k + 1).drop_last() =~= line@.take(k as int));
        }
        bytes = bytes + char_bytes_exec(c);
        k += 1;
    }
    if bytes != 26 {
        proof {
            if exists|j: int| 0 <= j <= line@.len() && #[trigger] bytes_len(line@.take(j)) == 26 {
                let j = choose|j: int| 0 <= j <= line@.len() && #[trigger] bytes_len(line@.take(j)) == 26;
                if j < k {
                    if j < k - 1 {
                        lemma_bytes_len_grows(line@, j, k - 1);
                    }
                } else if j > k {
                    lemma_bytes_len_grows(line@, k as int, j);
                    assert(line@.take(k as int) =~= line@);
                }
            }
        }
        return None;
    }
    proof {
        let j = choose|j: int| 0 <= j <= line@.len() && #[trigger] bytes_len(line@.take(j)) == 26;
        if j < k {
            lemma_bytes_len_grows(line@, j, k as int);
        } else if j > k {
            lemma_bytes_len_grows(line@, k as int, j);
        }
    }
    let head = crate::text::string_of_range(line, chars, 0, k);
    assert(head@ =~= line@.take(k as int));
    parse_stamp(head.as_str())
}

/// `a - b`, kept within the range of `i64`.
pub open spec fn sat_sub_i64(a: i64, b: i64) -> i64 {
    if a - b > i64::MAX {
        i64::MAX
    } else if a - b < i64::MIN {
        i64::MIN
    } else {
        (a - b) as i64
    }
}

/// Milliseconds from the origin to the time stamp; 0 when either is
/// missing or the stamp is earlier.
pub open spec fn relative_ms(ts: Option<i64>, origin: Option<i64>) -> u64 {
    match (ts, origin) {
        (Some(t), Some(o)) => {
            let d = sat_sub_i64(t, o);
            if d < 0 {
                0
            } else {
                (d / 1000) as u64
            }
        },
        _ => 0,
    }
}

fn relative_ms_exec(ts: Option<i64>, origin: Option<i64>) -> (r: u64)
    ensures
        r == relative_ms(ts, origin),
{
    match (ts, origin) {
        (Some(t), Some(o)) => {
            let w: i128 = t as i128 - o as i128;
            let d: i64 = if w > i64::MAX as i128 {
                i64::MAX
            } else if w < i64::MIN as i128 {
                i64::MIN
            } else {
                w as i64
            };
            if d < 0 {
                0
            } else {
                (d / 1000) as u64
            }
        },
        _ => 0,
    }
}

// ---------------------------------------------------------------------------
// The parser state.

/// The most cycles read; the log is cut there.
pub const MAX_CYCLES_SAFETY_CAP: usize = 500_000;

/// A run that started and has not ended yet.
#[derive(Clone, Copy)]
pub struct InProgressExecution {
    pub instance_id: u64,
    pub cycle: u64,
    pub start_ms: u64,
    pub log_line_no_start: u64,
    pub status: ExecutionStatus,
}

/// What the caller does after a line.
#[derive(Clone, Copy, PartialEq, Eq, Structural)]
pub enum ParseStep {
    /// Go on with the next line.
    Continue,
    /// Stop reading: the log is cut.
    Stop,
    /// Parse the configuration text, set it, and hand the same line again.
    NeedConfig,
}

/// The state of the log reading.
pub struct LogParserContext {
    pub line_no: u64,
    pub next_execution_id: u64,
    pub next_instant_event_id: u64,
    pub config_lines: Vec<String>,
    pub parsed_config: Option<SchedulerConfig>,
    pub cycle_time_ms: u64,
    pub origin_time_us: Option<i64>,
    pub prev_cycle_start_ms: Option<u64>,
    pub last_log_ms: u64,
    pub current_running_count: u32,
    pub in_progress: HashMap<u16, InProgressExecution>,
    pub executions_by_cid: HashMap<u16, Vec<ActualExecution>>,
    pub instant_events_by_cid: HashMap<u16, Vec<ActualInstantEvent>>,
    pub metrics: Vec<ActualMetricPoint>,
    pub cycles: Vec<ActualCycle>,
    pub is_truncated: bool,
}

/// The parser state as mathematical values.
pub struct ParserView {
    pub line_no: u64,
    pub next_exec: u64,
    pub next_event: u64,
    pub config_lines: Seq<Seq<char>>,
    pub has_config: bool,
    pub cycle_time_ms: u64,
    pub origin: Option<i64>,
    pub prev_start: Option<u64>,
    pub last_log_ms: u64,
    pub running: u32,
    pub in_progress: Map<u16, InProgressExecution>,
    pub execs: Map<u16, Seq<ActualExecution>>,
    pub events: Map<u16, Seq<ActualInstantEvent>>,
    pub metrics: Seq<ActualMetricPoint>,
    pub cycles: Seq<ActualCycle>,
    pub truncated: bool,
}

/// The lists of a map as sequences.
pub open spec fn lists_view<T>(m: Map<u16, Vec<T>>) -> Map<u16, Seq<T>> {
    m.map_values(|v: Vec<T>| v@)
}

impl View for LogParserContext {
    type V = ParserView;

    open spec fn view(&self) -> ParserView {
        ParserView {
            line_no: self.line_no,
            next_exec: self.next_execution_id,
            next_event: self.next_instant_event_id,
            config_lines: crate::text::strings_view(self.config_lines@),
            has_config: self.parsed_config is Some,
            cycle_time_ms: self.cycle_time_ms,
            origin: self.origin_time_us,
            prev_start: self.prev_cycle_start_ms,
            last_log_ms: self.last_log_ms,
            running: self.current_running_count,
            in_progress: self.in_progress@,
            execs: lists_view(self.executions_by_cid@),
            events: lists_view(self.instant_events_by_cid@),
            metrics: self.metrics@,
            cycles: self.cycles@,
            truncated: self.is_truncated,
        }
    }
}

/// `m` with `x` appended to the list of `cid`.
pub open spec fn appended<T>(m: Map<u16, Seq<T>>, cid: u16, x: T) -> Map<u16, Seq<T>> {
    m.insert(
        cid,
        if m.contains_key(cid) {
            m[cid]
        } else {
            Seq::empty()
        }.push(x),
    )
}

/// Appends `x` to the list of `cid`.
fn push_to<T>(m: &mut HashMap<u16, Vec<T>>, cid: u16, x: T)
    ensures
        lists_view(final(m)@) == appended(lists_view(old(m)@), cid, x),
{
    let ghost m0 = lists_view(m@);
    match m.remove(&cid) {
        Some(v) => {
            let mut v = v;
            v.push(x);
            m.insert(cid, v);
        },
        None => {
            let mut v: Vec<T> = Vec::new();
            v.push(x);
            m.insert(cid, v);
        },
    }
    assert(lists_view(m@) =~= appended(m0, cid, x));
}

/// The metric points once `count` runs are in progress from `time`: a
/// point at the same time as the last one replaces it.
pub open spec fn metric_point(ms: Seq<ActualMetricPoint>, time: u64, count: u32) -> Seq<
    ActualMetricPoint,
> {
    let p = ActualMetricPoint { time_ms: time, running_count: count };
    if ms.len() > 0 && ms.last().time_ms == time {
        ms.update(ms.len() - 1, p)
    } else {
        ms.push(p)
    }
}

fn record_metric_point(metrics: &mut Vec<ActualMetricPoint>, time_ms: u64, running_count: u32)
    ensures
        final(metrics)@ == metric_point(old(metrics)@, time_ms, running_count),
{
    let p = ActualMetricPoint { time_ms, running_count };
    let n = metrics.len();
    if n > 0 && metrics[n - 1].time_ms == time_ms {
        metrics.set(n - 1, p);
    } else {
        metrics.push(p);
    }
}

/// `v` with the instant event `t` of `cid` at `time` recorded on the
/// current line.
pub open spec fn event_recorded(v: ParserView, cid: u16, time: u64, t: InstantEventType) -> ParserView {
    ParserView {
        next_event: v.next_event.wrapping_add(1),
        events: appended(
            v.events,
            cid,
            ActualInstantEvent {
                log_line_no: v.line_no,
                instance_id: v.next_event,
                time_ms: time,
                event_type: t,
            },
        ),
        ..v
    }
}

/// `v` once the run in progress of `cid`, if any, ended at `time` on the
/// current line, with the status `status`, or its own when `None`.
pub open spec fn run_ended(
    v: ParserView,
    cid: u16,
    time: u64,
    status: Option<ExecutionStatus>,
) -> ParserView {
    if v.in_progress.contains_key(cid) {
        let e = v.in_progress[cid];
        let running = if v.running > 0 {
            (v.running - 1) as u32
        } else {
            0
        };
        ParserView {
            in_progress: v.in_progress.remove(cid),
            execs: appended(
                v.execs,
                cid,
                ActualExecution {
                    log_line_no_start: e.log_line_no_start,
                    log_line_no_end: Some(v.line_no),
                    instance_id: e.instance_id,
                    cycle: e.cycle,
                    start_ms: e.start_ms,
                    duration_ms: (if time >= e.start_ms {
                        time - e.start_ms
                    } else {
                        0
                    }) as u32,
                    status: match status {
                        Some(s) => s,
                        None => e.status,
                    },
                },
            ),
            running: running,
            metrics: metric_point(v.metrics, time, running),
            ..v
        }
    } else {
        v
    }
}

/// The kinds of client state reports, in the order they are told apart.
#[derive(Clone, Copy, PartialEq, Eq, Structural)]
pub enum StatKind {
    Retransmit,
    Start,
    End,
    Overrun,
    LateEnd,
    Skip,
    IdleLate,
    Ready,
    Exit,
    Other,
}

/// The kind of the client state report `body`.
pub open spec fn stat_kind(body: Seq<char>) -> StatKind {
    if has_sub(body, "(Retransmit)"@) {
        StatKind::Retransmit
    } else if has_sub(body, "Ready -> Running"@) {
        StatKind::Start
    } else if has_sub(body, "Running -> Idle"@) {
        StatKind::End
    } else if has_sub(body, "Running -> Overrun"@) {
        StatKind::Overrun
    } else if has_sub(body, "Overrun -> Late"@) {
        StatKind::LateEnd
    } else if has_sub(body, "Ready -> Skip"@) {
        StatKind::Skip
    } else if has_sub(body, "Idle -> Late"@) {
        StatKind::IdleLate
    } else if has_sub(body, "Idle -> Ready"@) || has_sub(body, "Skip -> Ready"@) || has_sub(
        body,
        "Late -> Idle"@,
    ) {
        StatKind::Ready
    } else if has_sub(body, "EXIT"@) {
        StatKind::Exit
    } else {
        StatKind::Other
    }
}

fn stat_kind_exec(body: &Vec<char>) -> (k: StatKind)
    ensures
        k == stat_kind(body@),
{
    if contains_exec(body, "(Retransmit)") {
        StatKind::Retransmit
    } else if contains_exec(body, "Ready -> Running") {
        StatKind::Start
    } else if contains_exec(body, "Running -> Idle") {
        StatKind::End
    } else if contains_exec(body, "Running -> Overrun") {
        StatKind::Overrun
    } else if contains_exec(body, "Overrun -> Late") {
        StatKind::LateEnd
    } else if contains_exec(body, "Ready -> Skip") {
        StatKind::Skip
    } else if contains_exec(body, "Idle -> Late") {
        StatKind::IdleLate
    } else if contains_exec(body, "Idle -> Ready") || contains_exec(body, "Skip -> Ready")
        || contains_exec(body, "Late -> Idle") {
        StatKind::Ready
    } else if contains_exec(body, "EXIT") {
        StatKind::Exit
    } else {
        StatKind::Other
    }
}

/// The cycle number of a report, 0 when it has none.
pub open spec fn cycle_number(body: Seq<char>) -> u64 {
    match field_value(body, "CYC:"@, u64::MAX as int) {
        Some(v) => v as u64,
        None => 0,
    }
}

/// `v` after the state report `body` of the client `cid` stamped `ts`:
/// reports before the first cycle start are ignored; otherwise the time is
/// noted and, by kind, a retransmission is an instant event, a start opens
/// a run, an end closes it, an overrun marks it, and the other changes are
/// instant events.
pub open spec fn client_stat(v: ParserView, cid: u16, body: Seq<char>, ts: Option<i64>) -> ParserView {
    if v.origin is None {
        v
    } else {
        let now = relative_ms(ts, v.origin);
        let v1 = ParserView { last_log_ms: now, ..v };
        match stat_kind(body) {
            StatKind::Retransmit => event_recorded(v1, cid, now, InstantEventType::Retransmit),
            StatKind::Start => {
                let running = v1.running.wrapping_add(1);
                ParserView {
                    next_exec: v1.next_exec.wrapping_add(1),
                    in_progress: v1.in_progress.insert(
                        cid,
                        InProgressExecution {
                            instance_id: v1.next_exec,
                            cycle: cycle_number(body),
                            start_ms: now,
                            log_line_no_start: v1.line_no,
                            status: ExecutionStatus::Normal,
                        },
                    ),
                    running: running,
                    metrics: metric_point(v1.metrics, now, running),
                    ..v1
                }
            },
            StatKind::End => run_ended(v1, cid, now, None),
            StatKind::Overrun => {
                let v2 = if v1.in_progress.contains_key(cid) {
                    ParserView {
                        in_progress: v1.in_progress.insert(
                            cid,
                            InProgressExecution {
                                status: ExecutionStatus::Overrun,
                                ..v1.in_progress[cid]
                            },
                        ),
                        ..v1
                    }
                } else {
                    v1
                };
                event_recorded(v2, cid, now, InstantEventType::Overrun)
            },
            StatKind::LateEnd => event_recorded(
                run_ended(v1, cid, now, Some(ExecutionStatus::Overrun)),
                cid,
                now,
                InstantEventType::Late,
            ),
            StatKind::Skip => event_recorded(v1, cid, now, InstantEventType::Skip),
            StatKind::IdleLate => event_recorded(v1, cid, now, InstantEventType::Late),
            StatKind::Ready => event_recorded(v1, cid, now, InstantEventType::Ready),
            StatKind::Exit => event_recorded(v1, cid, now, InstantEventType::Exit),
            StatKind::Other => v1,
        }
    }
}

/// The jitter of a cycle start at `now`: how much later than one period
/// after the previous start it came, kept within `i64`.
pub open spec fn jitter(prev: Option<u64>, now: u64, cycle_time_ms: u64) -> i64 {
    match prev {
        None => 0,
        Some(p) => {
            let d = now - (p + cycle_time_ms);
            if d > i64::MAX {
                i64::MAX
            } else if d < i64::MIN {
                i64::MIN
            } else {
                d as i64
            }
        },
    }
}

/// `v` after the cycle start report `body` stamped `ts`: the first one
/// sets the time origin; the cycle is recorded with its jitter, and the log
/// is cut once it holds `MAX_CYCLES_SAFETY_CAP` cycles.
pub open spec fn cycle_started(v: ParserView, body: Seq<char>, ts: Option<i64>) -> ParserView {
    let origin = if v.origin is None && ts is Some {
        ts
    } else {
        v.origin
    };
    let now = relative_ms(ts, origin);
    let cycles = v.cycles.push(
        ActualCycle {
            cycle: cycle_number(body),
            start_ms: now,
            start_jitter_ms: jitter(v.prev_start, now, v.cycle_time_ms),
        },
    );
    ParserView {
        origin: origin,
        last_log_ms: now,
        prev_start: Some(now),
        cycles: cycles,
        truncated: v.truncated || cycles.len() >= MAX_CYCLES_SAFETY_CAP,
        ..v
    }
}


/// How a line changes the state `v`, and what the caller does next: a
/// first cycle start before the configuration is known asks for it first,
/// without reading the line; otherwise the line is counted and a
/// configuration line is kept, a cycle start is recorded (stopping once the
/// log is cut), and a state report of a client is recorded.
pub open spec fn line_step(v: ParserView, line: Seq<char>) -> (ParserView, ParseStep) {
    let cfg = config_part(line);
    let stat = if cfg is None {
        stat_part(line)
    } else {
        None
    };
    if stat is Some && is_cycle_start(stat->0) && v.origin is None && !v.has_config {
        (v, ParseStep::NeedConfig)
    } else {
        let v1 = ParserView { line_no: v.line_no.wrapping_add(1), ..v };
        match cfg {
            Some(c) => (ParserView { config_lines: v1.config_lines.push(c), ..v1 }, ParseStep::Continue),
            None => match stat {
                None => (v1, ParseStep::Continue),
                Some(body) => {
                    let ts = line_stamp(line);
                    if is_cycle_start(body) {
                        let v2 = cycle_started(v1, body, ts);
                        (
                            v2,
                            if v2.truncated {
                                ParseStep::Stop
                            } else {
                                ParseStep::Continue
                            },
                        )
                    } else {
                        match field_value(body, "CID:"@, u16::MAX as int) {
                            Some(cid) => (client_stat(v1, cid as u16, body, ts), ParseStep::Continue),
                            None => (v1, ParseStep::Continue),
                        }
                    }
                },
            },
        }
    }
}

/// The jitter of a cycle start at `now`.
fn jitter_exec(prev: Option<u64>, now: u64, cycle_time_ms: u64) -> (r: i64)
    ensures
        r == jitter(prev, now, cycle_time_ms),
{
    match prev {
        None => 0,
        Some(p) => {
            let d: i128 = now as i128 - (p as i128 + cycle_time_ms as i128);
            if d > i64::MAX as i128 {
                i64::MAX
            } else if d < i64::MIN as i128 {
                i64::MIN
            } else {
                d as i64
            }
        },
    }
}

impl LogParserContext {
    /// Nothing read yet; the period defaults to 50 ms until the
    /// configuration is known.
    pub fn new() -> (c: Self)
        ensures
            c@ == (ParserView {
                line_no: 0,
                next_exec: 1,
                next_event: 1,
                config_lines: Seq::empty(),
                has_config: false,
                cycle_time_ms: 50,
                origin: None,
                prev_start: None,
                last_log_ms: 0,
                running: 0,
                in_progress: Map::empty(),
                execs: Map::empty(),
                events: Map::empty(),
                metrics: Seq::empty(),
                cycles: Seq::empty(),
                truncated: false,
            }),
    {
        let c = LogParserContext {
            line_no: 0,
            next_execution_id: 1,
            next_instant_event_id: 1,
            config_lines: Vec::new(),
            parsed_config: None,
            cycle_time_ms: 50,
            origin_time_us: None,
            prev_cycle_start_ms: None,
            last_log_ms: 0,
            current_running_count: 0,
            in_progress: HashMap::new(),
            executions_by_cid: HashMap::new(),
            instant_events_by_cid: HashMap::new(),
            metrics: Vec::new(),
            cycles: Vec::new(),
            is_truncated: false,
        };
        assert(c@.config_lines =~= Seq::<Seq<char>>::empty());
        assert(c@.execs =~= Map::<u16, Seq<ActualExecution>>::empty());
        assert(c@.events =~= Map::<u16, Seq<ActualInstantEvent>>::empty());
        c
    }

    /// Records an instant event of `cid` at `time_ms`: see `event_recorded`.
    fn record_instant_event(&mut self, cid: u16, time_ms: u64, event_type: InstantEventType)
        ensures
            final(self).parsed_config == old(self).parsed_config,
            final(self)@ == event_recorded(old(self)@, cid, time_ms, event_type),
    {
        let e = ActualInstantEvent {
            log_line_no: self.line_no,
            instance_id: self.next_instant_event_id,
            time_ms,
            event_type,
        };
        self.next_instant_event_id = self.next_instant_event_id.wrapping_add(1);
        push_to(&mut self.instant_events_by_cid, cid, e);
    }

    /// Ends the run in progress of `cid`: see `run_ended`.
    fn end_run(&mut self, cid: u16, time_ms: u64, status: Option<ExecutionStatus>)
        ensures
            final(self).parsed_config == old(self).parsed_config,
            final(self)@ == run_ended(old(self)@, cid, time_ms, status),
    {
        let ghost v0 = self@;
        match self.in_progress.remove(&cid) {
            Some(e) => {
                let d = time_ms.saturating_sub(e.start_ms);
                let x = ActualExecution {
                    log_line_no_start: e.log_line_no_start,
                    log_line_no_end: Some(self.line_no),
                    instance_id: e.instance_id,
                    cycle: e.cycle,
                    start_ms: e.start_ms,
                    duration_ms: #[verifier::truncate] (d as u32),
                    status: match status {
                        Some(s) => s,
                        None => e.status,
                    },
                };
                push_to(&mut self.executions_by_cid, cid, x);
                self.current_running_count = if self.current_running_count > 0 {
                    self.current_running_count - 1
                } else {
                    0
                };
                record_metric_point(&mut self.metrics, time_ms, self.current_running_count);
                assert(self@.in_progress =~= v0.in_progress.remove(cid));
            },
            None => {
                assert(self@.in_progress =~= v0.in_progress);
            },
        }
    }

    /// Records the state report `body` of the client `cid` stamped `ts`:
    /// see `client_stat`.
    pub fn handle_client_stat(&mut self, cid: u16, body: &Vec<char>, timestamp_us: Option<i64>)
        ensures
            final(self).parsed_config == old(self).parsed_config,
            final(self)@ == client_stat(old(self)@, cid, body@, timestamp_us),
    {
        if self.origin_time_us.is_none() {
            return;
        }
        let now = relative_ms_exec(timestamp_us, self.origin_time_us);
        self.last_log_ms = now;
        match stat_kind_exec(body) {
            StatKind::Retransmit => {
                self.record_instant_event(cid, now, InstantEventType::Retransmit);
            },
            StatKind::Start => {
                let cycle = match field_u64(body, "CYC:") {
                    Some(c) => c,
                    None => 0,
                };
                let id = self.next_execution_id;
                self.next_execution_id = self.next_execution_id.wrapping_add(1);
                self.in_progress.insert(
                    cid,
                    InProgressExecution {
                        instance_id: id,
                        cycle,
                        start_ms: now,
                        log_line_no_start: self.line_no,
                        status: ExecutionStatus::Normal,
                    },
                );
                self.current_running_count = self.current_running_count.wrapping_add(1);
                record_metric_point(&mut self.metrics, now, self.current_running_count);
            },
            StatKind::End => {
                self.end_run(cid, now, None);
            },
            StatKind::Overrun => {
                let ghost v1 = self@;
                match self.in_progress.get(&cid) {
                    Some(e) => {
                        let e2 = InProgressExecution { status: ExecutionStatus::Overrun, ..*e };
                        self.in_progress.insert(cid, e2);
                    },
                    None => {},
                }
                self.record_instant_event(cid, now, InstantEventType::Overrun);
            },
            StatKind::LateEnd => {
                self.end_run(cid, now, Some(ExecutionStatus::Overrun));
                self.record_instant_event(cid, now, InstantEventType::Late);
            },
            StatKind::Skip => {
                self.record_instant_event(cid, now, InstantEventType::Skip);
            },
            StatKind::IdleLate => {
                self.record_instant_event(cid, now, InstantEventType::Late);
            },
            StatKind::Ready => {
                self.record_instant_event(cid, now, InstantEventType::Ready);
            },
            StatKind::Exit => {
                self.record_instant_event(cid, now, InstantEventType::Exit);
            },
            StatKind::Other => {},
        }
    }

    /// Records the cycle start report `body` stamped `ts`: see
    /// `cycle_started`.
    pub fn handle_cycle_start(&mut self, body: &Vec<char>, timestamp_us: Option<i64>)
        ensures
            final(self).parsed_config == old(self).parsed_config,
            final(self)@ == cycle_started(old(self)@, body@, timestamp_us),
    {
        if self.origin_time_us.is_none() && timestamp_us.is_some() {
            self.origin_time_us = timestamp_us;
        }
        let cycle = match field_u64(body, "CYC:") {
            Some(c) => c,
            None => 0,
        };
        let now = relative_ms_exec(timestamp_us, self.origin_time_us);
        self.last_log_ms = now;
        let j = jitter_exec(self.prev_cycle_start_ms, now, self.cycle_time_ms);
        self.prev_cycle_start_ms = Some(now);
        self.cycles.push(ActualCycle { cycle, start_ms: now, start_jitter_ms: j });
        if self.cycles.len() >= MAX_CYCLES_SAFETY_CAP {
            self.is_truncated = true;
        }
    }

    /// Reads one line: see `line_step`.
    pub fn handle_line(&mut self, line: &str) -> (step: ParseStep)
        ensures
            final(self).parsed_config == old(self).parsed_config,
            (final(self)@, step) == line_step(old(self)@, line@),
    {
        let chars = crate::text::chars_of(line);
        let cfg = config_start(&chars);
        let stat = match cfg {
            Some(_) => None,
            None => stat_part_exec(&chars),
        };
        let is_start = match &stat {
            Some(body) => is_cycle_start_exec(body),
            None => false,
        };
        if is_start && self.origin_time_us.is_none() && self.parsed_config.is_none() {
            return ParseStep::NeedConfig;
        }
        self.line_no = self.line_no.wrapping_add(1);
        match cfg {
            Some(k) => {
                let text = crate::text::string_of_range(line, &chars, k, chars.len());
                let ghost before = self@.config_lines;
                self.config_lines.push(text);
                assert(self@.config_lines =~= before.push(chars@.skip(k as int)));
                return ParseStep::Continue;
            },
            None => {},
        }
        match stat {
            None => ParseStep::Continue,
            Some(body) => {
                let ts = line_stamp_exec(line, &chars);
                if is_start {
                    self.handle_cycle_start(&body, ts);
                    if self.is_truncated {
                        ParseStep::Stop
                    } else {
                        ParseStep::Continue
                    }
                } else {
                    match field_u16(&body, "CID:") {
                        Some(cid) => {
                            self.handle_client_stat(cid, &body, ts);
                            ParseStep::Continue
                        },
                        None => ParseStep::Continue,
                    }
                }
            },
        }
    }

    /// The configuration text embedded in the log: its lines joined by line
    /// breaks; an error when there is none.
    pub fn config_text(&self) -> (r: Result<String, String>)
        ensures
            self@.config_lines.len() == 0 ==> r is Err && r->Err_0@
                == "No <CONFIG> lines found in log file"@,
            self@.config_lines.len() > 0 ==> r is Ok && r->Ok_0@ == crate::text::join_with(
                self@.config_lines,
                "\n"@,
            ),
    {
        if self.config_lines.len() == 0 {
            return Err(String::from_str("No <CONFIG> lines found in log file"));
        }
        let mut out = String::new();
        crate::text::push_joined(&mut out, &self.config_lines, "\n");
        assert(out@ =~= crate::text::join_with(self@.config_lines, "\n"@));
        Ok(out)
    }

    /// Takes the configuration of the log when it validates; otherwise its
    /// errors per client, and nothing changes.
    pub fn set_config(&mut self, config: SchedulerConfig) -> (r: Result<(), HashMap<u16, Vec<String>>>)
        ensures
            r is Ok <==> crate::config::validation_errors(config.client_configs@).is_empty(),
            r is Err ==> crate::config::errors_view(r->Err_0@) == crate::config::validation_errors(
                config.client_configs@,
            ) && final(self)@ == old(self)@,
            r is Ok ==> final(self)@ == (ParserView {
                has_config: true,
                cycle_time_ms: config.server_config.cycle_time_ms as u64,
                ..old(self)@
            }) && final(self).parsed_config == Some(config),
    {
        match config.validate() {
            Err(e) => Err(e),
            Ok(()) => {
                self.cycle_time_ms = config.server_config.cycle_time_ms as u64;
                self.parsed_config = Some(config);
                Ok(())
            },
        }
    }
}


// ---------------------------------------------------------------------------
// Finishing.

/// The run in progress `e`, closed at the last time seen: its end line is
/// unknown.
pub open spec fn closed_run(e: InProgressExecution, last_log_ms: u64) -> ActualExecution {
    ActualExecution {
        log_line_no_start: e.log_line_no_start,
        log_line_no_end: None,
        instance_id: e.instance_id,
        cycle: e.cycle,
        start_ms: e.start_ms,
        duration_ms: (if last_log_ms >= e.start_ms {
            last_log_ms - e.start_ms
        } else {
            0
        }) as u32,
        status: e.status,
    }
}

/// The runs of `cid` once the runs in progress of the clients below `n`
/// are closed.
pub open spec fn runs_closed_below(v: ParserView, cid: u16, n: int) -> Seq<ActualExecution> {
    (if v.execs.contains_key(cid) {
        v.execs[cid]
    } else {
        Seq::empty()
    }) + if cid < n && v.in_progress.contains_key(cid) {
        seq![closed_run(v.in_progress[cid], v.last_log_ms)]
    } else {
        Seq::empty()
    }
}

/// The runs per client once the runs in progress of the clients below `n`
/// are closed.
pub open spec fn execs_closed_below(v: ParserView, n: int) -> Map<u16, Seq<ActualExecution>> {
    Map::new(
        |cid: u16| v.execs.contains_key(cid) || (cid < n && v.in_progress.contains_key(cid)),
        |cid: u16| runs_closed_below(v, cid, n),
    )
}

/// The runs are in order of start time.
pub open spec fn runs_sorted(s: Seq<ActualExecution>) -> bool {
    forall|a: int, b: int| 0 <= a < b < s.len() ==> #[trigger] s[a].start_ms <= #[trigger] s[b].start_ms
}

/// The instant events are in order of time.
pub open spec fn events_sorted(s: Seq<ActualInstantEvent>) -> bool {
    forall|a: int, b: int| 0 <= a < b < s.len() ==> #[trigger] s[a].time_ms <= #[trigger] s[b].time_ms
}

/// The runs of `s` that start at `k`, in their order in `s`.
pub open spec fn runs_at(s: Seq<ActualExecution>, k: u64) -> Seq<ActualExecution> {
    s.filter(|e: ActualExecution| e.start_ms == k)
}

/// The instant events of `s` at time `k`, in their order in `s`.
pub open spec fn events_at(s: Seq<ActualInstantEvent>, k: u64) -> Seq<ActualInstantEvent> {
    s.filter(|e: ActualInstantEvent| e.time_ms == k)
}

/// `slice::sort_by_key` on the start times of the runs. The contract
/// claims what the standard library documents: the same runs, in order of
/// start time, those with the same start in the order they had (the sort
/// is stable).
#[verifier::external_body]
fn sort_runs(v: &mut Vec<ActualExecution>)
    ensures
        final(v)@.to_multiset() == old(v)@.to_multiset(),
        final(v)@.len() == old(v)@.len(),
        runs_sorted(final(v)@),
        forall|k: u64| #[trigger] runs_at(final(v)@, k) == runs_at(old(v)@, k),
{
    v.sort_by_key(|e| e.start_ms);
}

/// `slice::sort_by_key` on the times of the instant events. The contract
/// claims what the standard library documents: the same events, in order of
/// time, those at the same time in the order they had (the sort is stable).
#[verifier::external_body]
fn sort_events(v: &mut Vec<ActualInstantEvent>)
    ensures
        final(v)@.to_multiset() == old(v)@.to_multiset(),
        final(v)@.len() == old(v)@.len(),
        events_sorted(final(v)@),
        forall|k: u64| #[trigger] events_at(final(v)@, k) == events_at(old(v)@, k),
{
    v.sort_by_key(|e| e.time_ms);
}

/// The largest number of runs in progress over the metric points, 0 when
/// there is none.
pub open spec fn max_running(ms: Seq<ActualMetricPoint>) -> u32
    decreases ms.len(),
{
    if ms.len() == 0 {
        0
    } else {
        let m = max_running(ms.drop_last());
        if ms.last().running_count > m {
            ms.last().running_count
        } else {
            m
        }
    }
}

/// The smallest jitter over the cycles, 0 when there is none.
pub open spec fn min_jitter(cs: Seq<ActualCycle>) -> i64
    decreases cs.len(),
{
    if cs.len() == 0 {
        0
    } else if cs.len() == 1 {
        cs[0].start_jitter_ms
    } else {
        let m = min_jitter(cs.drop_last());
        if cs.last().start_jitter_ms < m {
            cs.last().start_jitter_ms
        } else {
            m
        }
    }
}

/// The largest jitter over the cycles, 0 when there is none.
pub open spec fn max_jitter(cs: Seq<ActualCycle>) -> i64
    decreases cs.len(),
{
    if cs.len() == 0 {
        0
    } else if cs.len() == 1 {
        cs[0].start_jitter_ms
    } else {
        let m = max_jitter(cs.drop_last());
        if cs.last().start_jitter_ms > m {
            cs.last().start_jitter_ms
        } else {
            m
        }
    }
}

/// How long the log lasts: to the end of its last cycle, or to the last
/// time seen if that is later.
pub open spec fn total_duration(cs: Seq<ActualCycle>, cycle_time_ms: u32, last_log_ms: u64) -> u64 {
    let end: u64 = if cs.len() == 0 {
        0
    } else if cs.last().start_ms + cycle_time_ms <= u64::MAX {
        (cs.last().start_ms + cycle_time_ms) as u64
    } else {
        u64::MAX
    };
    if end > last_log_ms {
        end
    } else {
        last_log_ms
    }
}

/// The lists of `m0` below `n` are sorted and hold the same items; the rest
/// are as they were.
pub open spec fn runs_sorted_below(
    m0: Map<u16, Seq<ActualExecution>>,
    m: Map<u16, Seq<ActualExecution>>,
    n: int,
) -> bool {
    &&& m.dom() == m0.dom()
    &&& forall|cid: u16|
        #[trigger] m.contains_key(cid) ==> if cid < n {
            &&& runs_sorted(m[cid])
            &&& m[cid].to_multiset() == m0[cid].to_multiset()
            &&& forall|k: u64| #[trigger] runs_at(m[cid], k) == runs_at(m0[cid], k)
        } else {
            m[cid] == m0[cid]
        }
}

/// The lists of `m0` below `n` are sorted and hold the same items; the rest
/// are as they were.
pub open spec fn events_sorted_below(
    m0: Map<u16, Seq<ActualInstantEvent>>,
    m: Map<u16, Seq<ActualInstantEvent>>,
    n: int,
) -> bool {
    &&& m.dom() == m0.dom()
    &&& forall|cid: u16|
        #[trigger] m.contains_key(cid) ==> if cid < n {
            &&& events_sorted(m[cid])
            &&& m[cid].to_multiset() == m0[cid].to_multiset()
            &&& forall|k: u64| #[trigger] events_at(m[cid], k) == events_at(m0[cid], k)
        } else {
            m[cid] == m0[cid]
        }
}

/// What `finish` gives for the state `v` and the configuration `cfg`.
pub open spec fn finished(v: ParserView, cfg: SchedulerConfig, s: LogStore) -> bool {
    let execs = execs_closed_below(v, 0x1_0000);
    &&& s.metrics@ == v.metrics
    &&& s.cycles@ == v.cycles
    &&& s.summary == (LogSummary {
        config: cfg,
        max_concurrency: max_running(v.metrics),
        total_duration_ms: total_duration(
            v.cycles,
            cfg.server_config.cycle_time_ms,
            v.last_log_ms,
        ),
        total_cycles: v.cycles.len() as u64,
        min_start_jitter_ms: min_jitter(v.cycles),
        max_start_jitter_ms: max_jitter(v.cycles),
        is_truncated: v.truncated,
    })
    &&& forall|cid: u16|
        #[trigger] s.executions_by_cid@.contains_key(cid) <==> (execs.contains_key(cid) || has_client(
            cfg.client_configs@,
            cid,
        ))
    &&& forall|cid: u16|
        #[trigger] s.executions_by_cid@.contains_key(cid) ==> {
            let l = s.executions_by_cid@[cid]@;
            &&& runs_sorted(l)
            &&& l.to_multiset() == runs_closed_below(v, cid, 0x1_0000).to_multiset()
            &&& forall|k: u64|
                #[trigger] runs_at(l, k) == runs_at(runs_closed_below(v, cid, 0x1_0000), k)
        }
    &&& forall|cid: u16|
        #[trigger] s.instant_events_by_cid@.contains_key(cid) <==> (v.events.contains_key(cid)
            || has_client(cfg.client_configs@, cid))
    &&& forall|cid: u16|
        #[trigger] s.instant_events_by_cid@.contains_key(cid) ==> {
            let l = s.instant_events_by_cid@[cid]@;
            let src = if v.events.contains_key(cid) {
                v.events[cid]
            } else {
                Seq::empty()
            };
            &&& events_sorted(l)
            &&& l.to_multiset() == src.to_multiset()
            &&& forall|k: u64| #[trigger] events_at(l, k) == events_at(src, k)
        }
}


/// The largest number of runs in progress over the metric points.
fn max_running_exec(ms: &Vec<ActualMetricPoint>) -> (r: u32)
    ensures
        r == max_running(ms@),
{
    let mut m: u32 = 0;
    let mut k: usize = 0;
    while k < ms.len()
        invariant
            k <= ms@.len(),
            m == max_running(ms@.take(k as int)),
        decreases ms@.len() - k,
    {
        proof {
            let t = ms@.take(k + 1);
            assert(t.drop_last() =~= ms@.take(k as int));
        }
        if ms[k].running_count > m {
            m = ms[k].running_count;
        }
        k += 1;
    }
    assert(ms@.take(k as int) =~= ms@);
    m
}

/// The smallest and largest jitter over the cycles.
fn jitter_range(cs: &Vec<ActualCycle>) -> (r: (i64, i64))
    ensures
        r == (min_jitter(cs@), max_jitter(cs@)),
{
    if cs.len() == 0 {
        return (0, 0);
    }
    let mut lo: i64 = cs[0].start_jitter_ms;
    let mut hi: i64 = cs[0].start_jitter_ms;
    let mut k: usize = 1;
    assert(cs@.take(1) =~= seq![cs@[0]]);
    while k < cs.len()
        invariant
            1 <= k <= cs@.len(),
            lo == min_jitter(cs@.take(k as int)),
            hi == max_jitter(cs@.take(k as int)),
        decreases cs@.len() - k,
    {
        proof {
            let t = cs@.take(k + 1);
            assert(t.drop_last() =~= cs@.take(k as int));
        }
        let j = cs[k].start_jitter_ms;
        if j < lo {
            lo = j;
        }
        if j > hi {
            hi = j;
        }
        k += 1;
    }
    assert(cs@.take(k as int) =~= cs@);
    (lo, hi)
}

impl LogParserContext {
    /// Closes the runs still in progress at the last time seen.
    fn close_runs(&mut self)
        ensures
            final(self)@ == (ParserView { execs: execs_closed_below(old(self)@, 0x1_0000), ..old(self)@ }),
            final(self).parsed_config == old(self).parsed_config,
    {
        let ghost v = self@;
        assert(v.execs =~= execs_closed_below(v, 0));
        let mut c: u32 = 0;
        while c < 0x1_0000
            invariant
                c <= 0x1_0000,
                self@ == (ParserView { execs: execs_closed_below(v, c as int), ..v }),
                self.parsed_config == old(self).parsed_config,
            decreases 0x1_0000 - c,
        {
            let id = c as u16;
            let ghost before = execs_closed_below(v, c as int);
            match self.in_progress.get(&id) {
                Some(e) => {
                    let d = self.last_log_ms.saturating_sub(e.start_ms);
                    let x = ActualExecution {
                        log_line_no_start: e.log_line_no_start,
                        log_line_no_end: None,
                        instance_id: e.instance_id,
                        cycle: e.cycle,
                        start_ms: e.start_ms,
                        duration_ms: #[verifier::truncate] (d as u32),
                        status: e.status,
                    };
                    push_to(&mut self.executions_by_cid, id, x);
                    assert(appended(before, id, x) =~= execs_closed_below(v, c + 1)) by {
                        assert forall|q: u16| #[trigger] appended(before, id, x).contains_key(q) implies appended(
                            before,
                            id,
                            x,
                        )[q] =~= execs_closed_below(v, c + 1)[q] by {
                            if q == id {
                                assert(runs_closed_below(v, q, c as int) =~= if v.execs.contains_key(q) {
                                    v.execs[q]
                                } else {
                                    Seq::empty()
                                });
                            }
                        }
                    }
                },
                None => {
                    assert(before =~= execs_closed_below(v, c + 1)) by {
                        assert forall|q: u16| #[trigger] before.contains_key(q) implies before[q]
                            =~= execs_closed_below(v, c + 1)[q] by {}
                    }
                },
            }
            c += 1;
        }
    }

    /// Sorts the runs and instant events of every client by time.
    fn sort_lists(&mut self)
        ensures
            runs_sorted_below(old(self)@.execs, final(self)@.execs, 0x1_0000),
            events_sorted_below(old(self)@.events, final(self)@.events, 0x1_0000),
            final(self)@ == (ParserView { execs: final(self)@.execs, events: final(self)@.events, ..old(self)@ }),
            final(self).parsed_config == old(self).parsed_config,
    {
        let ghost v = self@;
        let mut c: u32 = 0;
        while c < 0x1_0000
            invariant
                c <= 0x1_0000,
                runs_sorted_below(v.execs, self@.execs, c as int),
                events_sorted_below(v.events, self@.events, c as int),
                self@ == (ParserView { execs: self@.execs, events: self@.events, ..v }),
                self.parsed_config == old(self).parsed_config,
            decreases 0x1_0000 - c,
        {
            let id = c as u16;
            let ghost e0 = self@.execs;
            let ghost v0 = self@.events;
            match self.executions_by_cid.remove(&id) {
                Some(l) => {
                    let mut l = l;
                    sort_runs(&mut l);
                    self.executions_by_cid.insert(id, l);
                },
                None => {},
            }
            match self.instant_events_by_cid.remove(&id) {
                Some(l) => {
                    let mut l = l;
                    sort_events(&mut l);
                    self.instant_events_by_cid.insert(id, l);
                },
                None => {},
            }
            proof {
                assert(self@.execs.dom() =~= v.execs.dom());
                assert(self@.events.dom() =~= v.events.dom());
                assert forall|q: u16| #[trigger] self@.execs.contains_key(q) implies if q < c + 1 {
                    &&& runs_sorted(self@.execs[q])
                    &&& self@.execs[q].to_multiset() == v.execs[q].to_multiset()
                    &&& forall|k: u64| #[trigger] runs_at(self@.execs[q], k) == runs_at(v.execs[q], k)
                } else {
                    self@.execs[q] == v.execs[q]
                } by {
                    if q != id {
                        assert(self@.execs[q] == e0[q]);
                    }
                }
                assert forall|q: u16| #[trigger] self@.events.contains_key(q) implies if q < c + 1 {
                    &&& events_sorted(self@.events[q])
                    &&& self@.events[q].to_multiset() == v.events[q].to_multiset()
                    &&& forall|k: u64| #[trigger] events_at(self@.events[q], k) == events_at(v.events[q], k)
                } else {
                    self@.events[q] == v.events[q]
                } by {
                    if q != id {
                        assert(self@.events[q] == v0[q]);
                    }
                }
            }
            c += 1;
        }
    }
}


/// Gives every configured client a list of runs and a list of instant
/// events, empty when it has none.
fn add_clients(
    execs: &mut HashMap<u16, Vec<ActualExecution>>,
    events: &mut HashMap<u16, Vec<ActualInstantEvent>>,
    cfgs: &Vec<ClientConfig>,
)
    ensures
        forall|cid: u16|
            #[trigger] final(execs)@.contains_key(cid) <==> (old(execs)@.contains_key(cid)
                || has_client(cfgs@, cid)),
        forall|cid: u16|
            #[trigger] final(execs)@.contains_key(cid) ==> final(execs)@[cid]@ == if old(
                execs,
            )@.contains_key(cid) {
                old(execs)@[cid]@
            } else {
                Seq::empty()
            },
        forall|cid: u16|
            #[trigger] final(events)@.contains_key(cid) <==> (old(events)@.contains_key(cid)
                || has_client(cfgs@, cid)),
        forall|cid: u16|
            #[trigger] final(events)@.contains_key(cid) ==> final(events)@[cid]@ == if old(
                events,
            )@.contains_key(cid) {
                old(events)@[cid]@
            } else {
                Seq::empty()
            },
{
    let ghost m0 = execs@;
    let ghost n0 = events@;
    let mut k: usize = 0;
    while k < cfgs.len()
        invariant
            k <= cfgs@.len(),
            forall|cid: u16|
                #[trigger] execs@.contains_key(cid) <==> (m0.contains_key(cid) || has_client(
                    cfgs@.take(k as int),
                    cid,
                )),
            forall|cid: u16|
                #[trigger] execs@.contains_key(cid) ==> execs@[cid]@ == if m0.contains_key(cid) {
                    m0[cid]@
                } else {
                    Seq::empty()
                },
            forall|cid: u16|
                #[trigger] events@.contains_key(cid) <==> (n0.contains_key(cid) || has_client(
                    cfgs@.take(k as int),
                    cid,
                )),
            forall|cid: u16|
                #[trigger] events@.contains_key(cid) ==> events@[cid]@ == if n0.contains_key(cid) {
                    n0[cid]@
                } else {
                    Seq::empty()
                },
        decreases cfgs@.len() - k,
    {
        let id = cfgs[k].client_id;
        if !execs.contains_key(&id) {
            execs.insert(id, Vec::new());
        }
        if !events.contains_key(&id) {
            events.insert(id, Vec::new());
        }
        proof {
            let t = cfgs@.take(k + 1);
            assert forall|cid: u16| has_client(t, cid) <==> (has_client(cfgs@.take(k as int), cid) || cid
                == id) by {
                if has_client(t, cid) {
                    let i = choose|i: int| 0 <= i < t.len() && #[trigger] t[i].client_id == cid;
                    if i < k {
                        assert(cfgs@.take(k as int)[i] == t[i]);
                    }
                }
                if has_client(cfgs@.take(k as int), cid) {
                    let i = choose|i: int| 0 <= i < k && #[trigger] cfgs@.take(k as int)[i].client_id == cid;
                    assert(t[i] == cfgs@.take(k as int)[i]);
                }
                if cid == id {
                    assert(t[k as int].client_id == id);
                }
            }
        }
        k += 1;
    }
    assert(cfgs@.take(k as int) =~= cfgs@);
}

impl LogParserContext {
    /// Ends the reading: the runs still in progress are closed at the last
    /// time seen, the runs and instant events of each client are sorted by
    /// time, every configured client gets its lists, and the summary is
    /// computed: see `finished`.
    pub fn finish(self) -> (r: LogStore)
        requires
            self.parsed_config is Some,
        ensures
            finished(self@, self.parsed_config->0, r),
    {
        let ghost v = self@;
        let ghost v_cfg = self.parsed_config->0;
        let mut this = self;
        this.close_runs();
        let ghost v1 = this@;
        this.sort_lists();
        let ghost v2 = this@;
        let config = this.parsed_config.unwrap();
        let mut execs = this.executions_by_cid;
        let mut events = this.instant_events_by_cid;
        add_clients(&mut execs, &mut events, &config.client_configs);
        let max_concurrency = max_running_exec(&this.metrics);
        let (lo, hi) = jitter_range(&this.cycles);
        let n = this.cycles.len();
        let end: u64 = if n == 0 {
            0
        } else {
            this.cycles[n - 1].start_ms.saturating_add(config.server_config.cycle_time_ms as u64)
        };
        let total_duration_ms = if end > this.last_log_ms {
            end
        } else {
            this.last_log_ms
        };
        let summary = LogSummary {
            max_concurrency,
            total_duration_ms,
            total_cycles: n as u64,
            min_start_jitter_ms: lo,
            max_start_jitter_ms: hi,
            is_truncated: this.is_truncated,
            config,
        };
        proof {
            let closed = execs_closed_below(v, 0x1_0000);
            assert forall|cid: u16| #[trigger] execs@.contains_key(cid) implies {
                let l = execs@[cid]@;
                &&& runs_sorted(l)
                &&& l.to_multiset() == runs_closed_below(v, cid, 0x1_0000).to_multiset()
                &&& forall|k: u64|
                    #[trigger] runs_at(l, k) == runs_at(runs_closed_below(v, cid, 0x1_0000), k)
            } by {
                if v2.execs.contains_key(cid) {
                    assert(lists_view(this.executions_by_cid@)[cid] == this.executions_by_cid@[cid]@);
                } else {
                    assert(!closed.contains_key(cid));
                    assert(runs_closed_below(v, cid, 0x1_0000) =~= Seq::<ActualExecution>::empty());
                    assert(execs@[cid]@ =~= Seq::<ActualExecution>::empty());
                }
            }
            assert forall|cid: u16| #[trigger] execs@.contains_key(cid) <==> (closed.contains_key(cid)
                || has_client(summary.config.client_configs@, cid)) by {
                assert(v2.execs.contains_key(cid) == lists_view(this.executions_by_cid@).contains_key(cid));
            }
            assert forall|cid: u16| #[trigger] events@.contains_key(cid) implies {
                let l = events@[cid]@;
                let src = if v.events.contains_key(cid) {
                    v.events[cid]
                } else {
                    Seq::empty()
                };
                &&& events_sorted(l)
                &&& l.to_multiset() == src.to_multiset()
                &&& forall|k: u64| #[trigger] events_at(l, k) == events_at(src, k)
            } by {
                if v2.events.contains_key(cid) {
                    assert(lists_view(this.instant_events_by_cid@)[cid] == this.instant_events_by_cid@[cid]@);
                } else {
                    assert(events@[cid]@ =~= Seq::<ActualInstantEvent>::empty());
                }
            }
            assert forall|cid: u16| #[trigger] events@.contains_key(cid) <==> (v.events.contains_key(cid)
                || has_client(summary.config.client_configs@, cid)) by {
                assert(v2.events.contains_key(cid) == lists_view(this.instant_events_by_cid@).contains_key(cid));
            }
        }
        let r = LogStore::new(summary, execs, events, this.metrics, this.cycles);
        assert(r.summary.config == v_cfg);
        assert(r.summary.total_duration_ms == total_duration(v.cycles, v_cfg.server_config.cycle_time_ms, v.last_log_ms));
        assert(r.summary.max_concurrency == max_running(v.metrics));
        assert(r.metrics@ == v.metrics);
        r
    }
}


/// The parser after reading the lines `ls` in turn from `v`.
pub open spec fn read_lines(v: ParserView, ls: Seq<Seq<char>>) -> ParserView
    decreases ls.len(),
{
    if ls.len() == 0 {
        v
    } else {
        line_step(read_lines(v, ls.drop_last()), ls.last()).0
    }
}

/// Lines without a `<CONFIG>` tag add no configuration line: a log none of
/// whose lines has the tag leaves the configuration lines as they were, so
/// from a new parser `config_text` gives the error that none was found.
pub proof fn lemma_no_config_lines(v: ParserView, ls: Seq<Seq<char>>)
    requires
        forall|k: int| 0 <= k < ls.len() ==> config_part(#[trigger] ls[k]) is None,
    ensures
        read_lines(v, ls).config_lines == v.config_lines,
    decreases ls.len(),
{
    if ls.len() > 0 {
        let pre = ls.drop_last();
        assert forall|k: int| 0 <= k < pre.len() implies config_part(#[trigger] pre[k]) is None by {
            assert(pre[k] == ls[k]);
        }
        lemma_no_config_lines(v, pre);
        assert(config_part(ls[ls.len() - 1]) is None);
    }
}


/// The largest number of runs in progress is that of some metric point and
/// at least that of every one; 0 when there is none.
pub proof fn lemma_max_running(ms: Seq<ActualMetricPoint>)
    ensures
        forall|k: int| 0 <= k < ms.len() ==> (#[trigger] ms[k]).running_count <= max_running(ms),
        ms.len() == 0 ==> max_running(ms) == 0,
        ms.len() > 0 ==> exists|k: int| 0 <= k < ms.len() && (#[trigger] ms[k]).running_count == max_running(ms),
    decreases ms.len(),
{
    if ms.len() > 0 {
        let pre = ms.drop_last();
        lemma_max_running(pre);
        assert forall|k: int| 0 <= k < ms.len() implies (#[trigger] ms[k]).running_count <= max_running(ms) by {
            if k < pre.len() {
                assert(ms[k] == pre[k]);
            }
        }
        if ms.last().running_count > max_running(pre) || pre.len() == 0 {
            assert(ms[ms.len() - 1].running_count == max_running(ms));
        } else {
            let k = choose|k: int| 0 <= k < pre.len() && (#[trigger] pre[k]).running_count == max_running(pre);
            assert(ms[k] == pre[k]);
        }
    }
}

/// The run `e` is the run in progress `p` closed at `time` on the line
/// `line`: same start, cycle and first line, lasting from its start to
/// `time` (none when `time` is earlier).
pub open spec fn closed_as(e: ActualExecution, p: InProgressExecution, time: u64, line: u64) -> bool {
    &&& e.start_ms == p.start_ms
    &&& e.cycle == p.cycle
    &&& e.log_line_no_start == p.log_line_no_start
    &&& e.log_line_no_end == Some(line)
    &&& e.duration_ms as int == (if time >= p.start_ms {
        (time - p.start_ms) as u32 as int
    } else {
        0
    })
}

/// How a state report of the client `cid`, whose run is in progress, ends
/// or marks that run, after the first cycle start: `Overrun -> Late` closes
/// it as overrun; `Running -> Overrun` marks it as overrun; `Running ->
/// Idle` closes it with its own status, which stays `Normal` unless an
/// overrun marked it; `Ready -> Running` opens a `Normal` run.
pub proof fn lemma_run_status(v: ParserView, cid: u16, body: Seq<char>, ts: Option<i64>)
    requires
        v.origin is Some,
        !has_sub(body, "(Retransmit)"@),
    ensures
        ({
            let v1 = client_stat(v, cid, body, ts);
            let old_list = if v.execs.contains_key(cid) {
                v.execs[cid]
            } else {
                Seq::empty()
            };
            &&& has_sub(body, "Ready -> Running"@) ==> v1.in_progress.contains_key(cid)
                && v1.in_progress[cid].status == ExecutionStatus::Normal
            &&& !has_sub(body, "Ready -> Running"@) && has_sub(body, "Running -> Idle"@)
                && v.in_progress.contains_key(cid) ==> {
                &&& !v1.in_progress.contains_key(cid)
                &&& v1.execs.contains_key(cid)
                &&& v1.execs[cid].len() == old_list.len() + 1
                &&& v1.execs[cid].drop_last() == old_list
                &&& v1.execs[cid].last().status == v.in_progress[cid].status
                &&& v1.execs[cid].last().instance_id == v.in_progress[cid].instance_id
                &&& closed_as(v1.execs[cid].last(), v.in_progress[cid], relative_ms(ts, v.origin), v.line_no)
            }
            &&& !has_sub(body, "Ready -> Running"@) && !has_sub(body, "Running -> Idle"@) && has_sub(
                body,
                "Running -> Overrun"@,
            ) && v.in_progress.contains_key(cid) ==> v1.in_progress.contains_key(cid)
                && v1.in_progress[cid].status == ExecutionStatus::Overrun
                && v1.in_progress[cid].instance_id == v.in_progress[cid].instance_id
            &&& !has_sub(body, "Ready -> Running"@) && !has_sub(body, "Running -> Idle"@) && !has_sub(
                body,
                "Running -> Overrun"@,
            ) && has_sub(body, "Overrun -> Late"@) && v.in_progress.contains_key(cid) ==> {
                &&& !v1.in_progress.contains_key(cid)
                &&& v1.execs.contains_key(cid)
                &&& v1.execs[cid].len() == old_list.len() + 1
                &&& v1.execs[cid].drop_last() == old_list
                &&& v1.execs[cid].last().status == ExecutionStatus::Overrun
                &&& v1.execs[cid].last().instance_id == v.in_progress[cid].instance_id
                &&& closed_as(v1.execs[cid].last(), v.in_progress[cid], relative_ms(ts, v.origin), v.line_no)
            }
        }),
{
}

} // verus!
