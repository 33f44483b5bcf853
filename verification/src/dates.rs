//! Calendar dates as plain values: a year, month and day triple with the
//! Gregorian validity invariant, and the text form used by the task-list
//! format, four year digits, two month digits and two day digits separated
//! by dashes.

use vstd::prelude::*;
use vstd::string::StringExecFns;

verus! {

/// A leap year of the Gregorian calendar.
pub open spec fn leap_year(y: int) -> bool {
    (y % 4 == 0 && y % 100 != 0) || y % 400 == 0
}

/// How many days the month `m` of the year `y` has.
pub open spec fn days_in_month(m: int, y: int) -> int {
    if m == 2 {
        if leap_year(y) {
            29
        } else {
            28
        }
    } else if m == 4 || m == 6 || m == 9 || m == 11 {
        30
    } else {
        31
    }
}

/// The number of days in a month of a year, for months 1 through 12.
pub fn day_in_month(month: u32, year: i32) -> (r: u32)
    requires
        1 <= month <= 12,
    ensures
        r == days_in_month(month as int, year as int),
{
    match month {
        1 => 31,
        2 => if (year % 4 == 0 && year % 100 != 0) || year % 400 == 0 {
            29
        } else {
            28
        },
        3 => 31,
        4 => 30,
        5 => 31,
        6 => 30,
        7 => 31,
        8 => 31,
        9 => 30,
        10 => 31,
        11 => 30,
        _ => 31,
    }
}

/// A calendar date with the text form in reach: the year has at most four
/// digits, and month and day fit the Gregorian calendar.
#[derive(PartialEq, Eq, Structural, Clone, Copy, Debug)]
pub struct Date {
    year: i32,
    month: u32,
    day: u32,
}

impl Date {
    /// The year.
    pub closed spec fn y(self) -> int {
        self.year as int
    }

    /// The month, starting at 1.
    pub closed spec fn m(self) -> int {
        self.month as int
    }

    /// The day of the month, starting at 1.
    pub closed spec fn d(self) -> int {
        self.day as int
    }

    /// A valid date: four year digits at most, a real month and a day the
    /// month has. Every value of the type satisfies this.
    #[verifier::type_invariant]
    pub open spec fn wf(self) -> bool {
        &&& 0 <= self.y() <= 9999
        &&& 1 <= self.m() <= 12
        &&& 1 <= self.d() <= days_in_month(self.m(), self.y())
    }

    /// Builds the date `year-month-day` exactly when the triple is a valid
    /// calendar date.
    pub fn new(year: i32, month: u32, day: u32) -> (r: Option<Date>)
        ensures
            r is Some <==> {
                &&& 0 <= year <= 9999
                &&& 1 <= month <= 12
                &&& 1 <= day <= days_in_month(month as int, year as int)
            },
            r is Some ==> {
                &&& r.unwrap().wf()
                &&& r.unwrap().y() == year as int
                &&& r.unwrap().m() == month as int
                &&& r.unwrap().d() == day as int
            },
    {
        if 0 <= year && year <= 9999 && 1 <= month && month <= 12 && 1 <= day && day
            <= day_in_month(month, year) {
            Some(Date { year, month, day })
        } else {
            None
        }
    }

    /// The year, month and day as plain numbers.
    pub fn ymd(&self) -> (r: (i32, u32, u32))
        ensures
            r.0 as int == self.y(),
            r.1 as int == self.m(),
            r.2 as int == self.d(),
    {
        (self.year, self.month, self.day)
    }

    /// Dates are ordered like their (year, month, day) triples.
    pub open spec fn le_spec(self, other: Date) -> bool {
        if self.y() != other.y() {
            self.y() < other.y()
        } else if self.m() != other.m() {
            self.m() < other.m()
        } else {
            self.d() <= other.d()
        }
    }

    /// Compares two dates chronologically.
    pub fn le(&self, other: &Date) -> (r: bool)
        ensures
            r == self.le_spec(*other),
    {
        if self.year != other.year {
            self.year < other.year
        } else if self.month != other.month {
            self.month < other.month
        } else {
            self.day <= other.day
        }
    }

    /// Writes the date as four year digits, two month digits and two day
    /// digits, dash-separated.
    pub fn format_ymd(&self) -> (r: String)
        ensures
            r@ == ymd_chars(self.y(), self.m(), self.d()),
    {
        proof {
            use_type_invariant(*self);
            reveal_strlit("-");
        }
        let y = self.year as u32;
        let mut out = String::new();
        out.append(digit_str(y / 1000));
        out.append(digit_str((y / 100) % 10));
        out.append(digit_str((y / 10) % 10));
        out.append(digit_str(y % 10));
        out.append("-");
        out.append(digit_str(self.month / 10));
        out.append(digit_str(self.month % 10));
        out.append("-");
        out.append(digit_str(self.day / 10));
        out.append(digit_str(self.day % 10));
        proof {
            assert(out@ =~= ymd_chars(self.y(), self.m(), self.d()));
        }
        out
    }
}

/// The decimal digit character for a value below ten.
pub open spec fn digit_char(v: int) -> char {
    if v == 0 {
        '0'
    } else if v == 1 {
        '1'
    } else if v == 2 {
        '2'
    } else if v == 3 {
        '3'
    } else if v == 4 {
        '4'
    } else if v == 5 {
        '5'
    } else if v == 6 {
        '6'
    } else if v == 7 {
        '7'
    } else if v == 8 {
        '8'
    } else {
        '9'
    }
}

/// The numeric value of a decimal digit character, or nothing.
pub open spec fn char_digit(c: char) -> Option<int> {
    if c == '0' {
        Some(0int)
    } else if c == '1' {
        Some(1int)
    } else if c == '2' {
        Some(2int)
    } else if c == '3' {
        Some(3int)
    } else if c == '4' {
        Some(4int)
    } else if c == '5' {
        Some(5int)
    } else if c == '6' {
        Some(6int)
    } else if c == '7' {
        Some(7int)
    } else if c == '8' {
        Some(8int)
    } else if c == '9' {
        Some(9int)
    } else {
        None
    }
}

/// The text of a date: `YYYY-MM-DD`.
pub open spec fn ymd_chars(y: int, m: int, d: int) -> Seq<char> {
    seq![
        digit_char(y / 1000 % 10),
        digit_char(y / 100 % 10),
        digit_char(y / 10 % 10),
        digit_char(y % 10),
        '-',
        digit_char(m / 10 % 10),
        digit_char(m % 10),
        '-',
        digit_char(d / 10 % 10),
        digit_char(d % 10),
    ]
}

/// One decimal digit as text.
fn digit_str(v: u32) -> (r: &'static str)
    requires
        v <= 9,
    ensures
        r@ =~= seq![digit_char(v as int)],
{
    proof {
        reveal_strlit("0");
        reveal_strlit("1");
        reveal_strlit("2");
        reveal_strlit("3");
        reveal_strlit("4");
        reveal_strlit("5");
        reveal_strlit("6");
        reveal_strlit("7");
        reveal_strlit("8");
        reveal_strlit("9");
    }
    match v {
        0 => "0",
        1 => "1",
        2 => "2",
        3 => "3",
        4 => "4",
        5 => "5",
        6 => "6",
        7 => "7",
        8 => "8",
        _ => "9",
    }
}


/// What the date text `YYYY-MM-DD` denotes: the year, month and day values,
/// or nothing when the text does not have that shape.
pub open spec fn parse_ymd_chars(s: Seq<char>) -> Option<(int, int, int)> {
    if s.len() == 10 && s[4] == '-' && s[7] == '-' && char_digit(s[0]) is Some && char_digit(
        s[1],
    ) is Some && char_digit(s[2]) is Some && char_digit(s[3]) is Some && char_digit(
        s[5],
    ) is Some && char_digit(s[6]) is Some && char_digit(s[8]) is Some && char_digit(
        s[9],
    ) is Some {
        Some(
            (
                char_digit(s[0]).unwrap() * 1000 + char_digit(s[1]).unwrap() * 100 + char_digit(
                    s[2],
                ).unwrap() * 10 + char_digit(s[3]).unwrap(),
                char_digit(s[5]).unwrap() * 10 + char_digit(s[6]).unwrap(),
                char_digit(s[8]).unwrap() * 10 + char_digit(s[9]).unwrap(),
            ),
        )
    } else {
        None
    }
}

/// Reads one ASCII digit byte.
fn byte_digit(b: u8) -> (r: Option<u32>)
    ensures
        r is Some <==> 48 <= b <= 57,
        r is Some ==> r.unwrap() == b - 48 && r.unwrap() <= 9,
{
    if 48 <= b && b <= 57 {
        Some((b - 48) as u32)
    } else {
        None
    }
}

/// Reads a date out of its `YYYY-MM-DD` text; the result is present exactly
/// when the text has that shape and the triple is a valid calendar date.
pub fn parse_ymd(s: &str) -> (r: Option<Date>)
    ensures
        match parse_ymd_chars(s@) {
            Some(t) => {
                if 1 <= t.1 <= 12 && 1 <= t.2 <= days_in_month(t.1, t.0) {
                    &&& r is Some
                    &&& r.unwrap().wf()
                    &&& r.unwrap().y() == t.0
                    &&& r.unwrap().m() == t.1
                    &&& r.unwrap().d() == t.2
                } else {
                    r is None
                }
            },
            None => r is None,
        },
{
    broadcast use vstd::string::is_ascii_spec_bytes;

    if !s.is_ascii() {
        proof {
            let chars = s@;
            if parse_ymd_chars(chars) is Some {
                assert forall|i: int| 0 <= i < chars.len() implies '\0' <= #[trigger] chars[i]
                    <= '\u{7f}' by {
                    if i == 4 || i == 7 {
                    } else {
                        assert(char_digit(chars[i]) is Some);
                    }
                }
                assert(vstd::utf8::is_ascii_chars(chars));
            }
        }
        return None;
    }
    let b = s.as_bytes();
    proof {
        assert(b@ =~= Seq::new(s@.len(), |i: int| s@.index(i) as u8));
    }
    if b.len() != 10 {
        return None;
    }
    proof {
        assert forall|i: int| 0 <= i < s@.len() implies b@[i] == #[trigger] s@[i] as u8 by {}
    }
    if b[4] != 45 || b[7] != 45 {
        proof {
            if s@[4] == '-' && s@[7] == '-' {
                assert(b@[4] == '-' as u8);
                assert(b@[7] == '-' as u8);
            }
        }
        return None;
    }
    proof {
        assert(s@[4] as u8 == 45 && s@[4] <= '\u{7f}' ==> s@[4] == '-');
        assert(s@[4] == '-');
        assert(s@[7] == '-');
    }
    let d0 = byte_digit(b[0]);
    let d1 = byte_digit(b[1]);
    let d2 = byte_digit(b[2]);
    let d3 = byte_digit(b[3]);
    let d5 = byte_digit(b[5]);
    let d6 = byte_digit(b[6]);
    let d8 = byte_digit(b[8]);
    let d9 = byte_digit(b[9]);
    proof {
        assert forall|i: int|
            0 <= i < 10 && i != 4 && i != 7 implies (char_digit(s@[i]) is Some <==> 48 <= b@[i]
            <= 57) && (char_digit(s@[i]) is Some ==> char_digit(s@[i]).unwrap() == b@[i]
            - 48) by {
            let c = s@[i];
            assert(b@[i] == c as u8);
            assert(c <= '\u{7f}');
            if 48 <= c as u8 <= 57 {
                assert(c as int == c as u8 as int);
                if c as int == 48 {
                    assert(c == '0');
                }
                if c as int == 49 {
                    assert(c == '1');
                }
                if c as int == 50 {
                    assert(c == '2');
                }
                if c as int == 51 {
                    assert(c == '3');
                }
                if c as int == 52 {
                    assert(c == '4');
                }
                if c as int == 53 {
                    assert(c == '5');
                }
                if c as int == 54 {
                    assert(c == '6');
                }
                if c as int == 55 {
                    assert(c == '7');
                }
                if c as int == 56 {
                    assert(c == '8');
                }
                if c as int == 57 {
                    assert(c == '9');
                }
            }
        }
    }
    match (d0, d1, d2, d3, d5, d6, d8, d9) {
        (
            Some(y0),
            Some(y1),
            Some(y2),
            Some(y3),
            Some(m0),
            Some(m1),
            Some(dd0),
            Some(dd1),
        ) => {
            let year = (y0 * 1000 + y1 * 100 + y2 * 10 + y3) as i32;
            let month = m0 * 10 + m1;
            let day = dd0 * 10 + dd1;
            Date::new(year, month, day)
        },
        _ => None,
    }
}


/// A valid Gregorian triple with a four-digit year.
pub open spec fn valid_ymd(y: int, m: int, d: int) -> bool {
    0 <= y <= 9999 && 1 <= m <= 12 && 1 <= d <= days_in_month(m, y)
}

/// The year, month and day digits at the front of a byte sequence shaped
/// `YYYY-MM-DD`, or nothing.
pub open spec fn date_bytes(b: Seq<u8>) -> Option<(int, int, int)> {
    if b.len() >= 10 && b[4] == 45 && b[7] == 45 && 48 <= b[0] <= 57 && 48 <= b[1] <= 57 && 48
        <= b[2] <= 57 && 48 <= b[3] <= 57 && 48 <= b[5] <= 57 && 48 <= b[6] <= 57 && 48 <= b[8]
        <= 57 && 48 <= b[9] <= 57 {
        Some(
            (
                (b[0] - 48) * 1000 + (b[1] - 48) * 100 + (b[2] - 48) * 10 + (b[3] - 48),
                (b[5] - 48) * 10 + (b[6] - 48),
                (b[8] - 48) * 10 + (b[9] - 48),
            ),
        )
    } else {
        None
    }
}

/// Reads the `YYYY-MM-DD` digits standing at position `off` of `b`.
pub fn read_date_at(b: &[u8], off: usize) -> (r: Option<(i32, u32, u32)>)
    requires
        off <= b@.len(),
    ensures
        match date_bytes(b@.skip(off as int)) {
            Some(t) => r is Some && r.unwrap().0 as int == t.0 && r.unwrap().1 as int == t.1
                && r.unwrap().2 as int == t.2,
            None => r is None,
        },
{
    if b.len() - off < 10 {
        return None;
    }
    proof {
        assert forall|i: int| 0 <= i < 10 implies b@.skip(off as int)[i] == b@[off + i] by {}
    }
    if b[off + 4] != 45 || b[off + 7] != 45 {
        return None;
    }
    let d0 = byte_digit(b[off]);
    let d1 = byte_digit(b[off + 1]);
    let d2 = byte_digit(b[off + 2]);
    let d3 = byte_digit(b[off + 3]);
    let d5 = byte_digit(b[off + 5]);
    let d6 = byte_digit(b[off + 6]);
    let d8 = byte_digit(b[off + 8]);
    let d9 = byte_digit(b[off + 9]);
    match (d0, d1, d2, d3, d5, d6, d8, d9) {
        (
            Some(y0),
            Some(y1),
            Some(y2),
            Some(y3),
            Some(m0),
            Some(m1),
            Some(dd0),
            Some(dd1),
        ) => Some(
            ((y0 * 1000 + y1 * 100 + y2 * 10 + y3) as i32, m0 * 10 + m1, dd0 * 10 + dd1),
        ),
        _ => None,
    }
}


/// Pairwise order facts for three dates: totality, transitivity, and that
/// mutual order means equality.
pub proof fn lemma_date3(a: Date, b: Date, c: Date)
    ensures
        a.le_spec(b) || b.le_spec(a),
        b.le_spec(c) || c.le_spec(b),
        a.le_spec(c) || c.le_spec(a),
        a.le_spec(b) && b.le_spec(c) ==> a.le_spec(c),
        c.le_spec(b) && b.le_spec(a) ==> c.le_spec(a),
        b.le_spec(a) && a.le_spec(c) ==> b.le_spec(c),
        c.le_spec(a) && a.le_spec(b) ==> c.le_spec(b),
        a.le_spec(c) && c.le_spec(b) ==> a.le_spec(b),
        b.le_spec(c) && c.le_spec(a) ==> b.le_spec(a),
        a.le_spec(b) && b.le_spec(a) ==> a == b,
        b.le_spec(c) && c.le_spec(b) ==> b == c,
        a.le_spec(c) && c.le_spec(a) ==> a == c,
{
}

} // verus!
