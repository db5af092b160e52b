//! The line grammar of the chat log.
//!
//! A chat-family line is `[HH:MM:SS] <sender> <marker>,` followed by
//! arbitrary text, where `<sender>` is one word token, or two word tokens
//! joined by a single space or by a run of hyphens.  A date separator is
//! exactly `===== YYYY/MM/DD =====`.  Battle lines are recognised by fixed
//! phrases anywhere in the line, and their participants are read from the
//! line's space-separated tokens.

use vstd::prelude::*;

use crate::calendar::{LogDate, Timestamp};
use crate::text::{digit_val, is_digit, is_word_char, digit_char, word_char, has_sub, matches_at, contains_sub, check_at};

verus! {

// ---------------------------------------------------------------------------
// Timestamps: `[HH:MM:SS]` at the head of a line.
// ---------------------------------------------------------------------------

/// The first ten characters of `s` look like `[HH:MM:SS]`.
pub open spec fn timestamp_shape(s: Seq<char>) -> bool {
    &&& s.len() >= 10
    &&& s[0] == '[' && s[3] == ':' && s[6] == ':' && s[9] == ']'
    &&& is_digit(s[1]) && is_digit(s[2])
    &&& is_digit(s[4]) && is_digit(s[5])
    &&& is_digit(s[7]) && is_digit(s[8])
}

pub open spec fn ts_hour(s: Seq<char>) -> int {
    digit_val(s[1]) * 10 + digit_val(s[2])
}

pub open spec fn ts_minute(s: Seq<char>) -> int {
    digit_val(s[4]) * 10 + digit_val(s[5])
}

pub open spec fn ts_second(s: Seq<char>) -> int {
    digit_val(s[7]) * 10 + digit_val(s[8])
}

/// The two-digit fields of a timestamp-shaped line are in clock range.
pub open spec fn ts_valid(s: Seq<char>) -> bool {
    ts_hour(s) < 24 && ts_minute(s) < 60 && ts_second(s) < 60
}

/// The timestamp value written at the head of a timestamp-shaped line.
pub open spec fn ts_of(s: Seq<char>) -> Timestamp {
    Timestamp { hour: ts_hour(s) as u8, minute: ts_minute(s) as u8, second: ts_second(s) as u8 }
}

/// Numeric value of the digit at position `i`.
pub fn read_digit(line: &str, i: usize) -> (v: u8)
    requires
        i < line@.len(),
        is_digit(line@[i as int]),
    ensures
        v == digit_val(line@[i as int]),
        v <= 9,
{
    let c = line.get_char(i);
    ((c as u32) - ('0' as u32)) as u8
}

/// Value of the two-digit number at positions `i` and `i + 1`.
pub fn read_two_digits(line: &str, i: usize) -> (v: u8)
    requires
        i + 1 < line@.len(),
        line@.len() <= usize::MAX,
        is_digit(line@[i as int]),
        is_digit(line@[i + 1]),
    ensures
        v == digit_val(line@[i as int]) * 10 + digit_val(line@[i + 1]),
{
    let d1 = read_digit(line, i);
    let d2 = read_digit(line, i + 1);
    d1 * 10 + d2
}

pub fn check_timestamp_shape(line: &str, n: usize) -> (r: bool)
    requires
        n == line@.len(),
    ensures
        r == timestamp_shape(line@),
{
    if n < 10 {
        return false;
    }
    line.get_char(0) == '[' && line.get_char(3) == ':' && line.get_char(6) == ':' && line.get_char(
        9,
    ) == ']' && digit_char(line.get_char(1)) && digit_char(line.get_char(2)) && digit_char(
        line.get_char(4),
    ) && digit_char(line.get_char(5)) && digit_char(line.get_char(7)) && digit_char(
        line.get_char(8),
    )
}

/// Read and range-check the timestamp of a timestamp-shaped line.
pub fn read_timestamp(line: &str) -> (r: Option<Timestamp>)
    requires
        timestamp_shape(line@),
        line@.len() <= usize::MAX,
    ensures
        match r {
            Some(t) => ts_valid(line@) && t == ts_of(line@) && t.valid(),
            None => !ts_valid(line@),
        },
{
    let hour = read_two_digits(line, 1);
    let minute = read_two_digits(line, 4);
    let second = read_two_digits(line, 7);
    if hour < 24 && minute < 60 && second < 60 {
        Some(Timestamp { hour, minute, second })
    } else {
        None
    }
}

// ---------------------------------------------------------------------------
// Date separators: `===== YYYY/MM/DD =====`.
// ---------------------------------------------------------------------------

/// The whole line is a date separator.
pub open spec fn date_shape(s: Seq<char>) -> bool {
    &&& s.len() == 22
    &&& s[0] == '=' && s[1] == '=' && s[2] == '=' && s[3] == '=' && s[4] == '='
    &&& s[5] == ' '
    &&& is_digit(s[6]) && is_digit(s[7]) && is_digit(s[8]) && is_digit(s[9])
    &&& s[10] == '/'
    &&& is_digit(s[11]) && is_digit(s[12])
    &&& s[13] == '/'
    &&& is_digit(s[14]) && is_digit(s[15])
    &&& s[16] == ' '
    &&& s[17] == '=' && s[18] == '=' && s[19] == '=' && s[20] == '=' && s[21] == '='
}

pub open spec fn date_year(s: Seq<char>) -> int {
    digit_val(s[6]) * 1000 + digit_val(s[7]) * 100 + digit_val(s[8]) * 10 + digit_val(s[9])
}

pub open spec fn date_month(s: Seq<char>) -> int {
    digit_val(s[11]) * 10 + digit_val(s[12])
}

pub open spec fn date_day(s: Seq<char>) -> int {
    digit_val(s[14]) * 10 + digit_val(s[15])
}

/// The date value written in a date-shaped line.
pub open spec fn date_of(s: Seq<char>) -> LogDate {
    LogDate {
        year: date_year(s) as u16,
        month: date_month(s) as u8,
        day: date_day(s) as u8,
    }
}

/// Outcome of testing a line against the date-separator rule.
pub enum DateCheck {
    /// The line is not a date separator.
    NotDate,
    /// The line looks like a date separator but names no calendar date.
    Malformed,
    /// The line is a date separator carrying this date.
    Parsed(LogDate),
}

pub fn date_capture(line: &str, n: usize) -> (r: DateCheck)
    requires
        n == line@.len(),
    ensures
        match r {
            DateCheck::NotDate => !date_shape(line@),
            DateCheck::Malformed => date_shape(line@) && !date_of(line@).valid(),
            DateCheck::Parsed(d) => date_shape(line@) && date_of(line@).valid() && d == date_of(
                line@,
            ),
        },
{
    if n != 22 {
        return DateCheck::NotDate;
    }
    let shape = line.get_char(0) == '=' && line.get_char(1) == '=' && line.get_char(2) == '='
        && line.get_char(3) == '=' && line.get_char(4) == '=' && line.get_char(5) == ' '
        && digit_char(line.get_char(6)) && digit_char(line.get_char(7)) && digit_char(
        line.get_char(8),
    ) && digit_char(line.get_char(9)) && line.get_char(10) == '/' && digit_char(line.get_char(11))
        && digit_char(line.get_char(12)) && line.get_char(13) == '/' && digit_char(
        line.get_char(14),
    ) && digit_char(line.get_char(15)) && line.get_char(16) == ' ' && line.get_char(17) == '='
        && line.get_char(18) == '=' && line.get_char(19) == '=' && line.get_char(20) == '='
        && line.get_char(21) == '=';
    if !shape {
        return DateCheck::NotDate;
    }
    let y1 = read_digit(line, 6);
    let y2 = read_digit(line, 7);
    let y3 = read_digit(line, 8);
    let y4 = read_digit(line, 9);
    let year: u16 = (y1 as u16) * 1000 + (y2 as u16) * 100 + (y3 as u16) * 10 + (y4 as u16);
    let month = read_two_digits(line, 11);
    let day = read_two_digits(line, 14);
    if crate::calendar::date_is_valid(year, month, day) {
        DateCheck::Parsed(LogDate { year, month, day })
    } else {
        DateCheck::Malformed
    }
}

// ---------------------------------------------------------------------------
// Battle phrases.
// ---------------------------------------------------------------------------

/// The line reports a greedy hit: it carries one of four fixed verb phrases.
pub open spec fn spec_greedy_line(s: Seq<char>) -> bool {
    ||| has_sub(s, "delivers a"@)
    ||| has_sub(s, "performs a"@)
    ||| has_sub(s, "executes a"@)
    ||| has_sub(s, "swings a"@)
}

pub fn is_a_greedy_line(string: &str) -> (r: bool)
    ensures
        r == spec_greedy_line(string@),
{
    contains_sub(string, "delivers a") || contains_sub(string, "performs a") || contains_sub(
        string,
        "executes a",
    ) || contains_sub(string, "swings a")
}

/// The line reports the end of a battle.
pub open spec fn spec_battle_ended(s: Seq<char>) -> bool {
    has_sub(s, "Game Over"@)
}

pub fn is_battle_ended_line(string: &str) -> (r: bool)
    ensures
        r == spec_battle_ended(string@),
{
    contains_sub(string, "Game Over")
}

/// The line reports the start of a battle.
pub open spec fn spec_battle_started(s: Seq<char>) -> bool {
    has_sub(s, "A melee breaks out between the crews"@)
}

pub fn is_battle_started_line(string: &str) -> (r: bool)
    ensures
        r == spec_battle_started(string@),
{
    contains_sub(string, "A melee breaks out between the crews")
}

} // verus!

verus! {

// ---------------------------------------------------------------------------
// Senders: one word token, or two word tokens joined by a single space or by
// a run of hyphens.
// ---------------------------------------------------------------------------

pub open spec fn all_word(s: Seq<char>) -> bool {
    forall|i: int| 0 <= i < s.len() ==> is_word_char(s[i])
}

pub open spec fn single_word_sender(s: Seq<char>) -> bool {
    s.len() >= 2 && all_word(s)
}

/// `s` is two word tokens joined by the single space at position `i`.
pub open spec fn space_join_at(s: Seq<char>, i: int) -> bool {
    &&& 1 <= i <= s.len() - 2
    &&& s[i] == ' '
    &&& all_word(s.subrange(0, i))
    &&& all_word(s.subrange(i + 1, s.len() as int))
}

/// `s` is two word tokens joined by the hyphen run `[i, j]`.
pub open spec fn hyphen_join_at(s: Seq<char>, i: int, j: int) -> bool {
    &&& 1 <= i <= j <= s.len() - 2
    &&& (forall|k: int| i <= k <= j ==> s[k] == '-')
    &&& all_word(s.subrange(0, i))
    &&& all_word(s.subrange(j + 1, s.len() as int))
}

pub open spec fn valid_sender(s: Seq<char>) -> bool {
    ||| single_word_sender(s)
    ||| exists|i: int| space_join_at(s, i)
    ||| exists|i: int, j: int| hyphen_join_at(s, i, j)
}

/// In a joined sender the join can only sit at the first non-word position.
proof fn lemma_join_forced(s: Seq<char>, p: int)
    requires
        0 <= p < s.len(),
        !is_word_char(s[p]),
        forall|k: int| 0 <= k < p ==> is_word_char(s[k]),
    ensures
        forall|i: int| space_join_at(s, i) ==> i == p,
        forall|i: int, j: int| hyphen_join_at(s, i, j) ==> i == p,
{
    assert forall|i: int| space_join_at(s, i) implies i == p by {
        if i < p {
            assert(is_word_char(s[i]));
            assert(false);
        } else if i > p {
            assert(s.subrange(0, i)[p] == s[p]);
            assert(false);
        }
    }
    assert forall|i: int, j: int| hyphen_join_at(s, i, j) implies i == p by {
        if i < p {
            assert(is_word_char(s[i]));
            assert(s[i] == '-');
            assert(false);
        } else if i > p {
            assert(s.subrange(0, i)[p] == s[p]);
            assert(false);
        }
    }
}

/// First position in `[from, end)` that does not hold a word character.
fn first_non_word(line: &str, from: usize, end: usize, n: usize) -> (r: Option<usize>)
    requires
        n == line@.len(),
        from <= end <= n,
    ensures
        match r {
            Some(p) => from <= p < end && !is_word_char(line@[p as int]) && forall|k: int|
                from <= k < p ==> is_word_char(line@[k]),
            None => forall|k: int| from <= k < end ==> is_word_char(line@[k]),
        },
{
    let mut p = from;
    while p < end
        invariant
            n == line@.len(),
            from <= p <= end <= n,
            forall|k: int| from <= k < p ==> is_word_char(line@[k]),
        decreases end - p,
    {
        if !word_char(line.get_char(p)) {
            return Some(p);
        }
        p += 1;
    }
    None
}

/// Check whether `line[start..end]` is a valid sender.
pub fn check_sender(line: &str, start: usize, end: usize, n: usize) -> (r: bool)
    requires
        n == line@.len(),
        start <= end <= n,
    ensures
        r == valid_sender(line@.subrange(start as int, end as int)),
{
    let ghost s = line@.subrange(start as int, end as int);
    let ghost len = s.len() as int;
    match first_non_word(line, start, end, n) {
        None => {
            proof {
                assert forall|i: int| 0 <= i < len implies is_word_char(s[i]) by {
                    assert(s[i] == line@[start + i]);
                }
            }
            if end - start >= 2 {
                assert(single_word_sender(s));
                true
            } else {
                proof {
                    assert forall|i: int| !space_join_at(s, i) by {
                        if space_join_at(s, i) {
                            assert(is_word_char(s[i]));
                        }
                    }
                    assert forall|i: int, j: int| !hyphen_join_at(s, i, j) by {
                        if hyphen_join_at(s, i, j) {
                            assert(is_word_char(s[i]));
                            assert(s[i] == '-');
                        }
                    }
                }
                false
            }
        },
        Some(p) => {
            let rp = p - start;
            proof {
                assert(s[rp as int] == line@[p as int]);
                assert forall|k: int| 0 <= k < rp implies is_word_char(s[k]) by {
                    assert(s[k] == line@[start + k]);
                }
                lemma_join_forced(s, rp as int);
                assert(!single_word_sender(s));
            }
            let c = line.get_char(p);
            if c == ' ' {
                if rp == 0 || p + 1 >= end {
                    proof {
                        assert forall|i: int| !space_join_at(s, i) by {
                            if space_join_at(s, i) {
                                assert(i == rp as int);
                            }
                        }
                        assert forall|i: int, j: int| !hyphen_join_at(s, i, j) by {
                            if hyphen_join_at(s, i, j) {
                                assert(i == rp as int);
                                assert(s[i] == '-');
                            }
                        }
                    }
                    false
                } else {
                    match first_non_word(line, p + 1, end, n) {
                        None => {
                            proof {
                                assert forall|k: int| 0 <= k < rp implies is_word_char(
                                    #[trigger] s.subrange(0, rp as int)[k],
                                ) by {
                                    assert(s.subrange(0, rp as int)[k] == s[k]);
                                }
                                assert forall|k: int| 0 <= k < len - rp - 1 implies is_word_char(
                                    #[trigger] s.subrange(rp + 1, len)[k],
                                ) by {
                                    assert(s.subrange(rp + 1, len)[k] == line@[p + 1 + k]);
                                }
                                assert(space_join_at(s, rp as int));
                            }
                            true
                        },
                        Some(q) => {
                            proof {
                                let rq = q - start;
                                assert(s[rq] == line@[q as int]);
                                assert forall|i: int| !space_join_at(s, i) by {
                                    if space_join_at(s, i) {
                                        assert(i == rp as int);
                                        assert(s.subrange(rp + 1, len)[rq - rp - 1] == s[rq]);
                                    }
                                }
                                assert forall|i: int, j: int| !hyphen_join_at(s, i, j) by {
                                    if hyphen_join_at(s, i, j) {
                                        assert(i == rp as int);
                                        assert(s[i] == '-');
                                    }
                                }
                            }
                            false
                        },
                    }
                }
            } else if c == '-' {
                let mut q = p;
                while q < end && line.get_char(q) == '-'
                    invariant
                        n == line@.len(),
                        p <= q <= end <= n,
                        forall|k: int| p <= k < q ==> line@[k] == '-',
                    decreases end - q,
                {
                    q += 1;
                }
                proof {
                    assert forall|k: int| rp <= k < q - start implies s[k] == '-' by {
                        assert(s[k] == line@[start + k]);
                    }
                }
                if rp == 0 {
                    proof {
                        assert forall|i: int| !space_join_at(s, i) by {
                            if space_join_at(s, i) {
                                assert(i == 0);
                            }
                        }
                        assert forall|i: int, j: int| !hyphen_join_at(s, i, j) by {
                            if hyphen_join_at(s, i, j) {
                                assert(i == 0);
                            }
                        }
                    }
                    false
                } else if q == end {
                    proof {
                        assert forall|i: int| !space_join_at(s, i) by {
                            if space_join_at(s, i) {
                                assert(i == rp as int);
                                assert(s[i] == ' ');
                            }
                        }
                        assert forall|i: int, j: int| !hyphen_join_at(s, i, j) by {
                            if hyphen_join_at(s, i, j) {
                                assert(i == rp as int);
                                assert(j + 1 <= len - 1);
                                assert(s[j + 1] == '-');
                                assert(s.subrange(j + 1, len)[0] == s[j + 1]);
                                assert(is_word_char(s[j + 1]));
                            }
                        }
                    }
                    false
                } else {
                    let ghost rq = q - start;
                    proof {
                        assert(s[rq] == line@[q as int]);
                        assert(s[rq] != '-');
                    }
                    match first_non_word(line, q, end, n) {
                        None => {
                            proof {
                                assert forall|k: int| 0 <= k < rp implies is_word_char(
                                    #[trigger] s.subrange(0, rp as int)[k],
                                ) by {
                                    assert(s.subrange(0, rp as int)[k] == s[k]);
                                }
                                assert forall|k: int| 0 <= k < len - rq implies is_word_char(
                                    #[trigger] s.subrange(rq, len)[k],
                                ) by {
                                    assert(s.subrange(rq, len)[k] == line@[q + k]);
                                }
                                assert(hyphen_join_at(s, rp as int, rq - 1));
                            }
                            true
                        },
                        Some(w) => {
                            proof {
                                let rw = w - start;
                                assert(s[rw] == line@[w as int]);
                                assert forall|i: int| !space_join_at(s, i) by {
                                    if space_join_at(s, i) {
                                        assert(i == rp as int);
                                        assert(s[i] == ' ');
                                    }
                                }
                                assert forall|i: int, j: int| !hyphen_join_at(s, i, j) by {
                                    if hyphen_join_at(s, i, j) {
                                        assert(i == rp as int);
                                        if j >= rq {
                                            assert(s[rq] == '-');
                                            assert(false);
                                        } else if j < rq - 1 {
                                            assert(s[j + 1] == '-');
                                            assert(s.subrange(j + 1, len)[0] == s[j + 1]);
                                            assert(false);
                                        } else {
                                            assert(j == rq - 1);
                                            assert(s.subrange(j + 1, len)[rw - rq] == s[rw]);
                                            assert(is_word_char(s[rw]));
                                            assert(false);
                                        }
                                    }
                                }
                            }
                            false
                        },
                    }
                }
            } else {
                proof {
                    assert forall|i: int| !space_join_at(s, i) by {
                        if space_join_at(s, i) {
                            assert(i == rp as int);
                        }
                    }
                    assert forall|i: int, j: int| !hyphen_join_at(s, i, j) by {
                        if hyphen_join_at(s, i, j) {
                            assert(i == rp as int);
                            assert(s[i] == '-');
                        }
                    }
                }
                false
            }
        },
    }
}

} // verus!

verus! {

// ---------------------------------------------------------------------------
// Chat-family lines: `[HH:MM:SS] <sender> <marker>,` and then anything.
// ---------------------------------------------------------------------------

/// The line opens with a timestamp followed by a space.
pub open spec fn chat_shape(line: Seq<char>) -> bool {
    timestamp_shape(line) && line.len() >= 11 && line[10] == ' '
}

/// Position `e` splits the line into a valid sender `line[11..e]` followed
/// by a space, the marker word and a comma.
pub open spec fn split_ok(line: Seq<char>, marker: Seq<char>, e: int) -> bool {
    &&& 12 <= e
    &&& line[e] == ' '
    &&& matches_at(line, e + 1, marker)
    &&& e + 1 + marker.len() < line.len()
    &&& line[e + 1 + marker.len()] == ','
    &&& valid_sender(line.subrange(11, e))
}

/// The first position from `e` on where the marker split succeeds.
pub open spec fn find_split_from(line: Seq<char>, marker: Seq<char>, e: int) -> Option<int>
    decreases line.len() - e,
{
    if e >= line.len() {
        None
    } else if split_ok(line, marker, e) {
        Some(e)
    } else {
        find_split_from(line, marker, e + 1)
    }
}

pub open spec fn find_split(line: Seq<char>, marker: Seq<char>) -> Option<int> {
    find_split_from(line, marker, 12)
}

/// The line is a chat-family line for this marker.
pub open spec fn chat_match(line: Seq<char>, marker: Seq<char>) -> bool {
    chat_shape(line) && find_split(line, marker) is Some
}

/// The sender captured from a matching chat-family line.
pub open spec fn sender_of(line: Seq<char>, marker: Seq<char>) -> Seq<char> {
    match find_split(line, marker) {
        Some(e) => line.subrange(11, e),
        None => Seq::empty(),
    }
}

/// Try to read the line as a chat-family line for `marker`, returning the
/// captured sender.
pub fn chat_capture(line: &str, marker: &str, n: usize) -> (r: Option<String>)
    requires
        n == line@.len(),
    ensures
        match r {
            Some(sender) => chat_match(line@, marker@) && sender@ == sender_of(line@, marker@),
            None => !chat_match(line@, marker@),
        },
{
    if !check_timestamp_shape(line, n) {
        return None;
    }
    if n < 11 {
        return None;
    }
    if line.get_char(10) != ' ' {
        return None;
    }
    let m_len = marker.unicode_len();
    let mut e: usize = 12;
    while e < n
        invariant
            n == line@.len(),
            m_len == marker@.len(),
            chat_shape(line@),
            12 <= e <= n || e == 12,
            find_split(line@, marker@) == find_split_from(line@, marker@, e as int),
        decreases n - e,
    {
        let cond = line.get_char(e) == ' ' && n - e >= 2 && m_len <= n - e - 2 && check_at(
            line,
            e + 1,
            n,
            marker,
            m_len,
        ) && line.get_char(e + 1 + m_len) == ',' && check_sender(line, 11, e, n);
        proof {
            assert(cond == split_ok(line@, marker@, e as int));
        }
        if cond {
            let sender = line.substring_char(11, e).to_owned();
            proof {
                assert(find_split_from(line@, marker@, e as int) == Some(e as int));
            }
            return Some(sender);
        }
        proof {
            assert(find_split_from(line@, marker@, e as int) == find_split_from(
                line@,
                marker@,
                e + 1,
            ));
        }
        e += 1;
    }
    proof {
        assert(find_split_from(line@, marker@, e as int) is None);
    }
    None
}

// ---------------------------------------------------------------------------
// Splitting a line on single spaces, as battle lines are read.
// ---------------------------------------------------------------------------

/// Split `s` on every space character; empty pieces are kept.
pub open spec fn split_spaces(s: Seq<char>) -> Seq<Seq<char>>
    decreases s.len(),
{
    if s.len() == 0 {
        seq![Seq::<char>::empty()]
    } else if s[0] == ' ' {
        seq![Seq::<char>::empty()] + split_spaces(s.skip(1))
    } else {
        let rest = split_spaces(s.skip(1));
        seq![seq![s[0]] + rest[0]] + rest.skip(1)
    }
}

pub proof fn lemma_split_spaces_len(s: Seq<char>)
    ensures
        split_spaces(s).len() >= 1,
    decreases s.len(),
{
    if s.len() == 0 {
    } else {
        lemma_split_spaces_len(s.skip(1));
    }
}

/// A sequence without spaces is a single token.
pub proof fn lemma_split_no_space(s: Seq<char>)
    requires
        forall|k: int| 0 <= k < s.len() ==> s[k] != ' ',
    ensures
        split_spaces(s) == seq![s],
    decreases s.len(),
{
    if s.len() == 0 {
        assert(s =~= Seq::<char>::empty());
    } else {
        lemma_split_no_space(s.skip(1));
        let rest = split_spaces(s.skip(1));
        assert(rest == seq![s.skip(1)]);
        assert(seq![s[0]] + rest[0] =~= s);
        assert(rest.skip(1) =~= Seq::<Seq<char>>::empty());
        assert(seq![seq![s[0]] + rest[0]] + rest.skip(1) =~= seq![s]);
    }
}

/// The first token ends at the first space, and splitting continues after it.
pub proof fn lemma_split_at_space(s: Seq<char>, i: int)
    requires
        0 <= i < s.len(),
        s[i] == ' ',
        forall|k: int| 0 <= k < i ==> s[k] != ' ',
    ensures
        split_spaces(s) == seq![s.subrange(0, i)] + split_spaces(
            s.subrange(i + 1, s.len() as int),
        ),
    decreases i,
{
    if i == 0 {
        assert(s.subrange(0, 0) =~= Seq::<char>::empty());
        assert(s.skip(1) =~= s.subrange(1, s.len() as int));
    } else {
        lemma_split_at_space(s.skip(1), i - 1);
        let rest = split_spaces(s.skip(1));
        assert(s.skip(1).subrange(0, i - 1) =~= s.subrange(1, i));
        assert(s.skip(1).subrange(i, s.len() - 1) =~= s.subrange(i + 1, s.len() as int));
        lemma_split_spaces_len(s.subrange(i + 1, s.len() as int));
        assert(rest[0] == s.subrange(1, i));
        assert(seq![s[0]] + rest[0] =~= s.subrange(0, i));
        assert(rest.skip(1) =~= split_spaces(s.subrange(i + 1, s.len() as int)));
        assert(seq![seq![s[0]] + rest[0]] + rest.skip(1) =~= seq![s.subrange(0, i)]
            + split_spaces(s.subrange(i + 1, s.len() as int)));
    }
}

/// A sequence holding a space splits into at least two tokens.
pub proof fn lemma_split_spaces_min_len(s: Seq<char>, i: int)
    requires
        0 <= i < s.len(),
        s[i] == ' ',
    ensures
        split_spaces(s).len() >= 2,
    decreases i,
{
    if s[0] == ' ' {
        lemma_split_spaces_len(s.skip(1));
    } else {
        lemma_split_spaces_min_len(s.skip(1), i - 1);
    }
}

/// The views of a vector of strings.
pub open spec fn str_views(v: Seq<String>) -> Seq<Seq<char>> {
    v.map_values(|t: String| t@)
}

/// Split a line on spaces, as `str::split(' ')` does.
pub fn split_on_spaces(s: &str) -> (r: Vec<String>)
    ensures
        str_views(r@) == split_spaces(s@),
{
    let n = s.unicode_len();
    let mut r: Vec<String> = Vec::new();
    let mut start: usize = 0;
    let mut i: usize = 0;
    proof {
        assert(s@.subrange(0, n as int) =~= s@);
        assert(str_views(r@) + split_spaces(s@) =~= split_spaces(s@));
    }
    loop
        invariant
            n == s@.len(),
            0 <= start <= i <= n,
            forall|k: int| start <= k < i ==> s@[k] != ' ',
            str_views(r@) + split_spaces(s@.subrange(start as int, n as int)) == split_spaces(s@),
        decreases n - i,
    {
        let ghost suf = s@.subrange(start as int, n as int);
        if i == n {
            proof {
                assert forall|k: int| 0 <= k < suf.len() implies suf[k] != ' ' by {
                    assert(suf[k] == s@[start + k]);
                }
                lemma_split_no_space(suf);
            }
            let tok = s.substring_char(start, n).to_owned();
            let ghost old_r = r@;
            r.push(tok);
            proof {
                assert(str_views(r@) =~= str_views(old_r) + seq![suf]);
                assert(str_views(old_r) + seq![suf] =~= split_spaces(s@));
            }
            return r;
        }
        if s.get_char(i) == ' ' {
            proof {
                assert(suf[i - start] == s@[i as int]);
                assert forall|k: int| 0 <= k < i - start implies suf[k] != ' ' by {
                    assert(suf[k] == s@[start + k]);
                }
                lemma_split_at_space(suf, i - start);
                assert(suf.subrange(0, i - start) =~= s@.subrange(start as int, i as int));
                assert(suf.subrange(i - start + 1, suf.len() as int) =~= s@.subrange(
                    i + 1,
                    n as int,
                ));
            }
            let tok = s.substring_char(start, i).to_owned();
            let ghost old_r = r@;
            r.push(tok);
            proof {
                assert(str_views(r@) =~= str_views(old_r) + seq![s@.subrange(
                    start as int,
                    i as int,
                )]);
                assert(str_views(old_r) + seq![s@.subrange(start as int, i as int)] + split_spaces(
                    s@.subrange(i + 1, n as int),
                ) =~= str_views(old_r) + split_spaces(suf));
            }
            i += 1;
            start = i;
        } else {
            i += 1;
        }
    }
}

/// Tokens read positionally from a battle-start line, with trailing
/// sentence punctuation removed.
pub open spec fn spec_attacker(line: Seq<char>) -> Seq<char> {
    strip_dots(split_spaces(line)[1]) + " "@ + strip_dots(split_spaces(line)[2])
}

pub open spec fn spec_defender(line: Seq<char>) -> Seq<char> {
    strip_dots(split_spaces(line)[5]) + " "@ + strip_dots(split_spaces(line)[6])
}

/// The participant named by a greedy-hit line: its second token.
pub open spec fn spec_greedy_name(line: Seq<char>) -> Seq<char> {
    split_spaces(line)[1]
}

/// Every greedy verb phrase holds a space, so a greedy line has at least
/// two tokens.
pub proof fn lemma_greedy_line_tokens(line: Seq<char>)
    requires
        spec_greedy_line(line),
    ensures
        split_spaces(line).len() >= 2,
{
    reveal_strlit("delivers a");
    reveal_strlit("performs a");
    reveal_strlit("executes a");
    reveal_strlit("swings a");
    if has_sub(line, "delivers a"@) {
        let i = choose|i: int| matches_at(line, i, "delivers a"@);
        assert(line.subrange(i, i + 10)[8] == ' ');
        lemma_split_spaces_min_len(line, i + 8);
    } else if has_sub(line, "performs a"@) {
        let i = choose|i: int| matches_at(line, i, "performs a"@);
        assert(line.subrange(i, i + 10)[8] == ' ');
        lemma_split_spaces_min_len(line, i + 8);
    } else if has_sub(line, "executes a"@) {
        let i = choose|i: int| matches_at(line, i, "executes a"@);
        assert(line.subrange(i, i + 10)[8] == ' ');
        lemma_split_spaces_min_len(line, i + 8);
    } else {
        let i = choose|i: int| matches_at(line, i, "swings a"@);
        assert(line.subrange(i, i + 8)[6] == ' ');
        lemma_split_spaces_min_len(line, i + 6);
    }
}

} // verus!

verus! {

/// A found split position satisfies `split_ok` and lies in the line.
pub proof fn lemma_find_split_some(line: Seq<char>, marker: Seq<char>, e0: int, e: int)
    requires
        find_split_from(line, marker, e0) == Some(e),
    ensures
        split_ok(line, marker, e),
        e0 <= e < line.len(),
    decreases line.len() - e0,
{
    if e0 >= line.len() {
        assert(false);
    } else if split_ok(line, marker, e0) {
    } else {
        lemma_find_split_some(line, marker, e0 + 1, e);
    }
}

} // verus!

verus! {

/// `s` without its trailing full stops: sentence punctuation after a ship
/// name is not part of the name.
pub open spec fn strip_dots(s: Seq<char>) -> Seq<char>
    decreases s.len(),
{
    if s.len() > 0 && s.last() == '.' {
        strip_dots(s.drop_last())
    } else {
        s
    }
}

/// Remove trailing full stops from a token.
pub fn strip_trailing_dots(s: &str) -> (r: String)
    ensures
        r@ == strip_dots(s@),
{
    let n = s.unicode_len();
    let mut e = n;
    proof {
        assert(s@.take(n as int) =~= s@);
    }
    while e > 0 && s.get_char(e - 1) == '.'
        invariant
            n == s@.len(),
            0 <= e <= n,
            strip_dots(s@) == strip_dots(s@.take(e as int)),
        decreases e,
    {
        proof {
            assert(s@.take(e as int).last() == s@[e - 1]);
            assert(s@.take(e as int).drop_last() =~= s@.take(e - 1));
        }
        e -= 1;
    }
    proof {
        if e > 0 {
            assert(s@.take(e as int).last() == s@[e - 1]);
            assert(strip_dots(s@.take(e as int)) == s@.take(e as int));
        } else {
            assert(s@.take(0).len() == 0);
            assert(strip_dots(s@.take(0)) == s@.take(0));
        }
    }
    s.substring_char(0, e).to_owned()
}

} // verus!
