//! Parsing of clock strings ("6:00 pm"), time ranges ("9:00 am-9:50 am")
//! and weekday letters into time blocks.
use vstd::prelude::*;
use crate::interval::TimeDuration;

verus! {

/// ASCII decimal digit.
pub open spec fn is_digit(c: char) -> bool {
    48 <= c as u32 && c as u32 <= 57
}

pub open spec fn digit_val(c: char) -> int {
    c as u32 - 48
}

/// Value of a string of decimal digits.
pub open spec fn dec_val(s: Seq<char>) -> int
    decreases s.len(),
{
    if s.len() == 0 {
        0
    } else {
        dec_val(s.drop_last()) * 10 + digit_val(s.last())
    }
}

/// The shape of a clock string: digits, a colon at `i`, digits, a space at
/// `j`, then one trailing token (the meridiem marker), with both numbers
/// small enough to parse into a 32-bit value.
pub open spec fn clock_shape(s: Seq<char>, i: int, j: int) -> bool {
    &&& 0 < i
    &&& i + 1 < j
    &&& j < s.len()
    &&& s[i] == ':'
    &&& s[j] == ' '
    &&& forall|k: int| 0 <= k < i ==> is_digit(#[trigger] s[k])
    &&& forall|k: int| i < k < j ==> is_digit(#[trigger] s[k])
    &&& forall|k: int| j < k < s.len() ==> #[trigger] s[k] != ' '
    &&& dec_val(s.subrange(0, i)) + 12 <= u32::MAX
    &&& dec_val(s.subrange(i + 1, j)) <= u32::MAX
}

/// The 24-hour (hours, minutes) a clock string of the given shape denotes:
/// "pm" adds twelve except at 12, "12:xx am" wraps to hour zero, and any
/// other marker leaves the hour as written.
pub open spec fn clock_value(s: Seq<char>, i: int, j: int) -> (int, int) {
    let hr = dec_val(s.subrange(0, i));
    let mn = dec_val(s.subrange(i + 1, j));
    let ampm = s.subrange(j + 1, s.len() as int);
    let h = if ampm == seq!['p', 'm'] && hr != 12 {
        hr + 12
    } else if ampm == seq!['a', 'm'] && hr == 12 {
        0
    } else {
        hr
    };
    (h, mn)
}

/// A clock string has at most one admissible (colon, space) position pair.
pub proof fn lemma_clock_shape_unique(s: Seq<char>, i1: int, j1: int, i2: int, j2: int)
    requires
        clock_shape(s, i1, j1),
        clock_shape(s, i2, j2),
    ensures
        i1 == i2,
        j1 == j2,
{
    if i1 < i2 {
        assert(is_digit(s[i1]));
    }
    if i2 < i1 {
        assert(is_digit(s[i2]));
    }
    if j1 < j2 {
        assert(is_digit(s[j1]));
    }
    if j2 < j1 {
        assert(s[j1] != ' ');
    }
}

proof fn lemma_dec_val_nonneg(s: Seq<char>)
    requires
        forall|k: int| 0 <= k < s.len() ==> is_digit(#[trigger] s[k]),
    ensures
        0 <= dec_val(s),
    decreases s.len(),
{
    if s.len() > 0 {
        lemma_dec_val_nonneg(s.drop_last());
    }
}

proof fn lemma_dec_val_prefix_le(s: Seq<char>, k: int)
    requires
        forall|q: int| 0 <= q < s.len() ==> is_digit(#[trigger] s[q]),
        0 <= k <= s.len(),
    ensures
        0 <= dec_val(s.take(k)),
        dec_val(s.take(k)) <= dec_val(s),
    decreases s.len() - k,
{
    assert forall|q: int| 0 <= q < s.take(k).len() implies is_digit(#[trigger] s.take(k)[q]) by {
        assert(s.take(k)[q] == s[q]);
    }
    lemma_dec_val_nonneg(s.take(k));
    if k == s.len() {
        assert(s.take(k) =~= s);
    } else {
        lemma_dec_val_prefix_le(s, k + 1);
        assert(s.take(k + 1).drop_last() =~= s.take(k));
        assert(dec_val(s.take(k + 1)) == dec_val(s.take(k)) * 10 + digit_val(s.take(k + 1).last()));
    }
}

/// Read the decimal number between `start` and the next occurrence of
/// `terminator`, which stands at the (ghost) position `end`.
fn scan_number(s: &str, start: usize, terminator: char, Ghost(end): Ghost<int>) -> (r: (u32, usize))
    requires
        s@.len() <= usize::MAX,
        0 <= start as int <= end < s@.len(),
        s@[end] == terminator,
        !is_digit(terminator),
        forall|k: int| start <= k < end ==> is_digit(#[trigger] s@[k]),
        dec_val(s@.subrange(start as int, end)) <= u32::MAX,
    ensures
        r.1 == end,
        r.0 == dec_val(s@.subrange(start as int, end)),
{
    let ghost t = s@.subrange(start as int, end);
    let mut k: usize = start;
    let mut acc: u32 = 0;
    let mut c: char = s.get_char(k);
    while c != terminator
        invariant
            s@.len() <= usize::MAX,
            start <= k <= end < s@.len(),
            c == s@[k as int],
            s@[end] == terminator,
            !is_digit(terminator),
            forall|q: int| start <= q < end ==> is_digit(#[trigger] s@[q]),
            t == s@.subrange(start as int, end),
            dec_val(t) <= u32::MAX,
            acc == dec_val(t.take(k - start)),
        decreases end - k,
    {
        proof {
            assert(k < end);
            assert(is_digit(s@[k as int]));
            lemma_dec_val_prefix_le(t, k - start + 1);
            assert(t.take(k - start + 1).drop_last() =~= t.take(k - start));
            assert(t.take(k - start + 1).last() == t[k - start]);
            assert(t[k - start] == s@[k as int]);
        }
        acc = acc * 10 + (c as u32 - 48);
        k += 1;
        c = s.get_char(k);
    }
    proof {
        assert(k == end);
        assert(t.take(end - start) =~= t);
    }
    (acc, k)
}

/// Parse a clock string such as "6:00 pm" into 24-hour (hours, minutes).
pub fn parse_mins_hours(s: &str) -> (r: (u32, u32))
    requires
        exists|i: int, j: int| clock_shape(s@, i, j),
    ensures
        forall|i: int, j: int|
            clock_shape(s@, i, j) ==> r.0 == clock_value(s@, i, j).0 && r.1 == clock_value(
                s@,
                i,
                j,
            ).1,
{
    let ghost (gi, gj) = choose|i: int, j: int| clock_shape(s@, i, j);
    let n = s.unicode_len();
    let (hours_raw, ci) = scan_number(s, 0, ':', Ghost(gi));
    let (mins, sj) = scan_number(s, ci + 1, ' ', Ghost(gj));
    let ghost ampm = s@.subrange(gj + 1, s@.len() as int);
    let is_pm = n - (sj + 1) == 2 && s.get_char(sj + 1) == 'p' && s.get_char(sj + 2) == 'm';
    let is_am = n - (sj + 1) == 2 && s.get_char(sj + 1) == 'a' && s.get_char(sj + 2) == 'm';
    proof {
        if is_pm {
            assert(ampm =~= seq!['p', 'm']);
        } else {
            assert(ampm != seq!['p', 'm']) by {
                if ampm == seq!['p', 'm'] {
                    assert(ampm.len() == 2);
                    assert(s@[gj + 1] == 'p' && s@[gj + 2] == 'm');
                }
            }
        }
        if is_am {
            assert(ampm =~= seq!['a', 'm']);
        } else {
            assert(ampm != seq!['a', 'm']) by {
                if ampm == seq!['a', 'm'] {
                    assert(ampm.len() == 2);
                    assert(s@[gj + 1] == 'a' && s@[gj + 2] == 'm');
                }
            }
        }
    }
    let hours = if is_pm && hours_raw != 12 {
        hours_raw + 12
    } else if is_am && hours_raw == 12 {
        0
    } else {
        hours_raw
    };
    proof {
        assert forall|i: int, j: int| clock_shape(s@, i, j) implies (hours as int, mins as int)
            == clock_value(s@, i, j) by {
            lemma_clock_shape_unique(s@, i, j, gi, gj);
        }
    }
    (hours, mins)
}

/// The weekday letters, Monday through Friday.
pub open spec fn is_day_char(c: char) -> bool {
    c == 'M' || c == 'T' || c == 'W' || c == 'R' || c == 'F'
}

/// The index of a weekday letter.
pub open spec fn spec_day_index(c: char) -> int {
    if c == 'M' {
        0
    } else if c == 'T' {
        1
    } else if c == 'W' {
        2
    } else if c == 'R' {
        3
    } else {
        4
    }
}

/// The weekday letter at an index.
pub open spec fn spec_day_char(d: int) -> char {
    if d == 0 {
        'M'
    } else if d == 1 {
        'T'
    } else if d == 2 {
        'W'
    } else if d == 3 {
        'R'
    } else {
        'F'
    }
}

/// Map a weekday letter to its index.
pub fn day_char_to_u8(day: char) -> (r: u8)
    requires
        is_day_char(day),
    ensures
        r == spec_day_index(day),
        r < 5,
{
    if day == 'M' {
        0
    } else if day == 'T' {
        1
    } else if day == 'W' {
        2
    } else if day == 'R' {
        3
    } else {
        4
    }
}

/// Map a weekday index to its letter.
pub fn u8_to_day_char(day: u8) -> (r: char)
    requires
        day < 5,
    ensures
        r == spec_day_char(day as int),
{
    if day == 0 {
        'M'
    } else if day == 1 {
        'T'
    } else if day == 2 {
        'W'
    } else if day == 3 {
        'R'
    } else {
        'F'
    }
}

/// The shape of a time range: one dash, with a well-shaped clock string on
/// each side.
pub open spec fn range_shape(s: Seq<char>, d: int) -> bool {
    &&& 0 <= d < s.len()
    &&& s[d] == '-'
    &&& forall|k: int| 0 <= k < s.len() && k != d ==> #[trigger] s[k] != '-'
    &&& exists|i: int, j: int| #[trigger] clock_shape(s.subrange(0, d), i, j)
    &&& exists|i: int, j: int| #[trigger] clock_shape(s.subrange(d + 1, s.len() as int), i, j)
}

/// The position of the dash of a time range.
pub open spec fn dash_of(s: Seq<char>) -> int {
    choose|d: int| range_shape(s, d)
}

/// The (hours, minutes) a clock string denotes.
pub open spec fn clock_of(s: Seq<char>) -> (int, int) {
    let (i, j) = choose|i: int, j: int| clock_shape(s, i, j);
    clock_value(s, i, j)
}

/// The start hour, start minutes, and length in minutes of a time range:
/// the length is the end's minute of the day minus the start's.
pub open spec fn spec_parsed_range(s: Seq<char>) -> (int, int, int) {
    let d = dash_of(s);
    let start = clock_of(s.subrange(0, d));
    let end = clock_of(s.subrange(d + 1, s.len() as int));
    (start.0, start.1, (end.0 * 60 + end.1) - (start.0 * 60 + start.1))
}

/// A parsable time range: one dash with clock strings around it, the end
/// not before the start, and the arithmetic within 32-bit range.
pub open spec fn range_wf(s: Seq<char>) -> bool {
    let d = dash_of(s);
    let start = clock_of(s.subrange(0, d));
    let end = clock_of(s.subrange(d + 1, s.len() as int));
    &&& exists|d0: int| range_shape(s, d0)
    &&& start.0 * 60 + start.1 <= end.0 * 60 + end.1
    &&& end.0 * 60 + end.1 <= u32::MAX
}

/// Parse a day string ("MWF") and a time range ("9:00 am-9:50 am") into one
/// time block per listed day.
pub fn parse_time(days: &str, s: &str) -> (r: Vec<TimeDuration>)
    requires
        range_wf(s@),
        forall|k: int| 0 <= k < days@.len() ==> is_day_char(#[trigger] days@[k]),
    ensures
        r@.len() == days@.len(),
        forall|k: int|
            0 <= k < days@.len() ==> #[trigger] r@[k] == (TimeDuration {
                day: spec_day_index(days@[k]) as u8,
                hour: spec_parsed_range(s@).0 as u32,
                minutes: spec_parsed_range(s@).1 as u32,
                length_in_minutes: spec_parsed_range(s@).2 as u32,
            }),
{
    let ghost gd = dash_of(s@);
    proof {
        let d0 = choose|d: int| range_shape(s@, d);
        assert(range_shape(s@, gd));
    }
    let n = s.unicode_len();
    let mut k: usize = 0;
    let mut c: char = s.get_char(0);
    while c != '-'
        invariant
            n == s@.len(),
            0 <= k <= gd < s@.len(),
            c == s@[k as int],
            range_shape(s@, gd),
        decreases gd - k,
    {
        proof {
            assert(s@[k as int] != '-');
            assert(k < gd);
        }
        k += 1;
        c = s.get_char(k);
    }
    proof {
        assert(k == gd);
    }
    let start_str = s.substring_char(0, k);
    let end_str = s.substring_char(k + 1, n);
    proof {
        assert(start_str@ == s@.subrange(0, gd));
        assert(end_str@ == s@.subrange(gd + 1, s@.len() as int));
    }
    let (s_h, s_m) = parse_mins_hours(start_str);
    let (e_h, e_m) = parse_mins_hours(end_str);
    proof {
        let (i1, j1) = choose|i: int, j: int| clock_shape(start_str@, i, j);
        assert((s_h as int, s_m as int) == clock_value(start_str@, i1, j1));
        assert((s_h as int, s_m as int) == clock_of(start_str@)) by {
            let (i2, j2) = choose|i: int, j: int| clock_shape(start_str@, i, j);
            lemma_clock_shape_unique(start_str@, i1, j1, i2, j2);
        }
        let (i3, j3) = choose|i: int, j: int| clock_shape(end_str@, i, j);
        assert((e_h as int, e_m as int) == clock_value(end_str@, i3, j3));
        assert((e_h as int, e_m as int) == clock_of(end_str@)) by {
            let (i4, j4) = choose|i: int, j: int| clock_shape(end_str@, i, j);
            lemma_clock_shape_unique(end_str@, i3, j3, i4, j4);
        }
    }
    let start_total = s_h * 60 + s_m;
    let end_total = e_h * 60 + e_m;
    let total_dm = end_total - start_total;
    proof {
        assert(total_dm == spec_parsed_range(s@).2);
    }
    let mut durs: Vec<TimeDuration> = Vec::new();
    let m = days.unicode_len();
    let mut q: usize = 0;
    while q < m
        invariant
            q <= m,
            m == days@.len(),
            forall|k0: int| 0 <= k0 < days@.len() ==> is_day_char(#[trigger] days@[k0]),
            s_h == spec_parsed_range(s@).0,
            s_m == spec_parsed_range(s@).1,
            total_dm == spec_parsed_range(s@).2,
            durs@.len() == q,
            forall|k0: int|
                0 <= k0 < q ==> #[trigger] durs@[k0] == (TimeDuration {
                    day: spec_day_index(days@[k0]) as u8,
                    hour: spec_parsed_range(s@).0 as u32,
                    minutes: spec_parsed_range(s@).1 as u32,
                    length_in_minutes: spec_parsed_range(s@).2 as u32,
                }),
        decreases m - q,
    {
        let ch = days.get_char(q);
        let this_td = TimeDuration {
            day: day_char_to_u8(ch),
            hour: s_h,
            minutes: s_m,
            length_in_minutes: total_dm,
        };
        durs.push(this_td);
        q += 1;
    }
    durs
}


} // verus!
