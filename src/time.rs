//! UTC timestamps with second precision, as carried in GeneralizedTime.
use vstd::prelude::*;

verus! {

/// A UTC point in time, held as its calendar fields.
#[derive(Clone, Copy, Debug, PartialEq, Eq, Structural)]
pub struct Time {
    pub year: u16,
    pub month: u8,
    pub day: u8,
    pub hour: u8,
    pub minute: u8,
    pub second: u8,
}

/// A Gregorian leap year.
pub open spec fn is_leap_year(y: int) -> bool {
    (y % 4 == 0 && y % 100 != 0) || y % 400 == 0
}

/// The days of month `m` of year `y`.
pub open spec fn days_in_month(y: int, m: int) -> int {
    if m == 2 {
        if is_leap_year(y) { 29 } else { 28 }
    } else if m == 4 || m == 6 || m == 9 || m == 11 {
        30
    } else {
        31
    }
}

/// The ASCII digit for a value below ten.
pub open spec fn digit(d: int) -> u8 {
    (48 + d) as u8
}

/// A number below 100 as two ASCII digits.
pub open spec fn two_digits(v: int) -> Seq<u8> {
    seq![digit(v / 10), digit(v % 10)]
}

/// A number below 10000 as four ASCII digits.
pub open spec fn four_digits(v: int) -> Seq<u8> {
    seq![digit(v / 1000), digit(v / 100 % 10), digit(v / 10 % 10), digit(v % 10)]
}

impl Time {
    /// A valid calendar date and time of day with a four-digit year.
    pub open spec fn wf(self) -> bool {
        &&& self.year <= 9999
        &&& 1 <= self.month <= 12
        &&& 1 <= self.day <= days_in_month(self.year as int, self.month as int)
        &&& self.hour < 24
        &&& self.minute < 60
        &&& self.second < 60
    }

    /// A number that orders times chronologically.
    pub open spec fn spec_key(self) -> int {
        self.year as int * 10000000000 + self.month as int * 100000000 + self.day as int * 1000000
            + self.hour as int * 10000 + self.minute as int * 100 + self.second as int
    }

    /// The content octets of the GeneralizedTime: `YYYYMMDDHHMMSSZ`.
    pub open spec fn spec_generalized(self) -> Seq<u8> {
        four_digits(self.year as int) + two_digits(self.month as int) + two_digits(self.day as int)
            + two_digits(self.hour as int) + two_digits(self.minute as int) + two_digits(
            self.second as int,
        ) + seq![90u8]
    }

    /// Builds a time from its calendar fields, if they name a valid time.
    pub fn utc(year: u16, month: u8, day: u8, hour: u8, minute: u8, second: u8) -> (r: Option<Time>)
        ensures
            r matches Some(t) ==> t.wf() && t == (Time { year, month, day, hour, minute, second }),
            r is None ==> !(Time { year, month, day, hour, minute, second }).wf(),
    {
        let t = Time { year, month, day, hour, minute, second };
        if year > 9999 || month < 1 || month > 12 || hour >= 24 || minute >= 60 || second >= 60
            || day < 1 {
            return None;
        }
        let leap = (year % 4 == 0 && year % 100 != 0) || year % 400 == 0;
        let dim: u8 = if month == 2 {
            if leap { 29 } else { 28 }
        } else if month == 4 || month == 6 || month == 9 || month == 11 {
            30
        } else {
            31
        };
        if day > dim {
            None
        } else {
            Some(t)
        }
    }

    /// A number that orders times chronologically.
    pub fn key(&self) -> (r: u64)
        requires
            self.wf(),
        ensures
            r as int == self.spec_key(),
    {
        self.year as u64 * 10000000000 + self.month as u64 * 100000000 + self.day as u64 * 1000000
            + self.hour as u64 * 10000 + self.minute as u64 * 100 + self.second as u64
    }

    /// The content octets of this time as a GeneralizedTime.
    pub fn generalized(&self) -> (r: Vec<u8>)
        requires
            self.wf(),
        ensures
            r@ == self.spec_generalized(),
    {
        let y = self.year;
        let mut r: Vec<u8> = Vec::new();
        r.push(48 + (y / 1000) as u8);
        r.push(48 + (y / 100 % 10) as u8);
        r.push(48 + (y / 10 % 10) as u8);
        r.push(48 + (y % 10) as u8);
        push_two(&mut r, self.month);
        push_two(&mut r, self.day);
        push_two(&mut r, self.hour);
        push_two(&mut r, self.minute);
        push_two(&mut r, self.second);
        r.push(90u8);
        assert(r@ =~= self.spec_generalized());
        r
    }

    /// Parses the content octets of a GeneralizedTime in the form
    /// `YYYYMMDDHHMMSSZ` that names a valid time.
    pub fn parse_generalized(c: &[u8]) -> (r: Option<Time>)
        ensures
            r matches Some(t) ==> t.wf() && t.spec_generalized() == c@,
            forall|t: Time| t.wf() && t.spec_generalized() == c@ ==> r == Some(t),
    {
        if c.len() != 15 || c[14] != 90u8 {
            proof {
                assert forall|t: Time| t.wf() implies t.spec_generalized() != c@ by {
                    if t.spec_generalized() == c@ {
                        assert(t.spec_generalized().len() == 15);
                        assert(t.spec_generalized()[14] == 90u8);
                    }
                }
            }
            return None;
        }
        let mut i: usize = 0;
        while i < 14
            invariant
                c@.len() == 15,
                i <= 14,
                forall|j: int| 0 <= j < i ==> 48 <= #[trigger] c@[j] <= 57,
            decreases 14 - i,
        {
            if c[i] < 48 || c[i] > 57 {
                proof {
                    assert forall|t: Time| t.wf() implies t.spec_generalized() != c@ by {
                        lemma_generalized_digits(t);
                    }
                }
                return None;
            }
            i = i + 1;
        }
        let year: u16 = (c[0] - 48) as u16 * 1000 + (c[1] - 48) as u16 * 100 + (c[2] - 48) as u16
            * 10 + (c[3] - 48) as u16;
        let month: u8 = (c[4] - 48) * 10 + (c[5] - 48);
        let day: u8 = (c[6] - 48) * 10 + (c[7] - 48);
        let hour: u8 = (c[8] - 48) * 10 + (c[9] - 48);
        let minute: u8 = (c[10] - 48) * 10 + (c[11] - 48);
        let second: u8 = (c[12] - 48) * 10 + (c[13] - 48);
        let t = Time { year, month, day, hour, minute, second };
        proof {
            lemma_four(c@[0] as int - 48, c@[1] as int - 48, c@[2] as int - 48, c@[3] as int - 48);
            lemma_two(c@[4] as int - 48, c@[5] as int - 48);
            lemma_two(c@[6] as int - 48, c@[7] as int - 48);
            lemma_two(c@[8] as int - 48, c@[9] as int - 48);
            lemma_two(c@[10] as int - 48, c@[11] as int - 48);
            lemma_two(c@[12] as int - 48, c@[13] as int - 48);
            assert(t.spec_generalized() =~= c@);
            assert forall|u: Time| u.wf() && u.spec_generalized() == c@ implies u == t by {
                lemma_generalized_injective(u, t);
            }
        }
        Time::utc(year, month, day, hour, minute, second)
    }
}

fn push_two(r: &mut Vec<u8>, v: u8)
    requires
        v < 100,
    ensures
        final(r)@ == old(r)@ + two_digits(v as int),
{
    r.push(48 + v / 10);
    r.push(48 + v % 10);
    assert(final(r)@ =~= old(r)@ + two_digits(v as int));
}

proof fn lemma_two(a: int, b: int)
    requires
        0 <= a < 10,
        0 <= b < 10,
    ensures
        two_digits(a * 10 + b) == seq![digit(a), digit(b)],
{
    assert((a * 10 + b) / 10 == a) by (nonlinear_arith)
        requires 0 <= a < 10, 0 <= b < 10;
    assert((a * 10 + b) % 10 == b) by (nonlinear_arith)
        requires 0 <= a < 10, 0 <= b < 10;
}

proof fn lemma_four(a: int, b: int, c: int, d: int)
    requires
        0 <= a < 10,
        0 <= b < 10,
        0 <= c < 10,
        0 <= d < 10,
    ensures
        four_digits(a * 1000 + b * 100 + c * 10 + d) == seq![digit(a), digit(b), digit(c), digit(d)],
{
    let v = a * 1000 + b * 100 + c * 10 + d;
    assert(v / 1000 == a) by (nonlinear_arith)
        requires 0 <= a < 10, 0 <= b < 10, 0 <= c < 10, 0 <= d < 10, v == a * 1000 + b * 100 + c * 10 + d;
    assert(v / 100 % 10 == b) by (nonlinear_arith)
        requires 0 <= a < 10, 0 <= b < 10, 0 <= c < 10, 0 <= d < 10, v == a * 1000 + b * 100 + c * 10 + d;
    assert(v / 10 % 10 == c) by (nonlinear_arith)
        requires 0 <= a < 10, 0 <= b < 10, 0 <= c < 10, 0 <= d < 10, v == a * 1000 + b * 100 + c * 10 + d;
    assert(v % 10 == d) by (nonlinear_arith)
        requires 0 <= a < 10, 0 <= b < 10, 0 <= c < 10, 0 <= d < 10, v == a * 1000 + b * 100 + c * 10 + d;
}

proof fn lemma_two_injective(v: int, w: int)
    requires
        0 <= v < 100,
        0 <= w < 100,
        two_digits(v) == two_digits(w),
    ensures
        v == w,
{
    assert(two_digits(v)[0] == two_digits(w)[0]);
    assert(two_digits(v)[1] == two_digits(w)[1]);
}

proof fn lemma_generalized_digits(t: Time)
    requires
        t.wf(),
    ensures
        t.spec_generalized().len() == 15,
        forall|j: int| 0 <= j < 14 ==> 48 <= #[trigger] t.spec_generalized()[j] <= 57,
{
    let g = t.spec_generalized();
    assert(g.len() == 15);
    assert forall|j: int| 0 <= j < 14 implies 48 <= #[trigger] g[j] <= 57 by {
        assert(g[j] == (four_digits(t.year as int) + two_digits(t.month as int) + two_digits(t.day as int)
            + two_digits(t.hour as int) + two_digits(t.minute as int) + two_digits(t.second as int))[j]);
    }
}

proof fn lemma_generalized_injective(u: Time, t: Time)
    requires
        u.wf(),
        t.year <= 9999,
        t.month < 100,
        t.day < 100,
        t.hour < 100,
        t.minute < 100,
        t.second < 100,
        u.spec_generalized() == t.spec_generalized(),
    ensures
        u == t,
{
    let g = u.spec_generalized();
    let h = t.spec_generalized();
    assert(g.subrange(0, 4) =~= four_digits(u.year as int));
    assert(h.subrange(0, 4) =~= four_digits(t.year as int));
    assert(g.subrange(4, 6) =~= two_digits(u.month as int));
    assert(h.subrange(4, 6) =~= two_digits(t.month as int));
    assert(g.subrange(6, 8) =~= two_digits(u.day as int));
    assert(h.subrange(6, 8) =~= two_digits(t.day as int));
    assert(g.subrange(8, 10) =~= two_digits(u.hour as int));
    assert(h.subrange(8, 10) =~= two_digits(t.hour as int));
    assert(g.subrange(10, 12) =~= two_digits(u.minute as int));
    assert(h.subrange(10, 12) =~= two_digits(t.minute as int));
    assert(g.subrange(12, 14) =~= two_digits(u.second as int));
    assert(h.subrange(12, 14) =~= two_digits(t.second as int));
    lemma_two_injective(u.month as int, t.month as int);
    lemma_two_injective(u.day as int, t.day as int);
    lemma_two_injective(u.hour as int, t.hour as int);
    lemma_two_injective(u.minute as int, t.minute as int);
    lemma_two_injective(u.second as int, t.second as int);
    let (y1, y2) = (u.year as int, t.year as int);
    assert(four_digits(y1)[0] == four_digits(y2)[0]);
    assert(four_digits(y1)[1] == four_digits(y2)[1]);
    assert(four_digits(y1)[2] == four_digits(y2)[2]);
    assert(four_digits(y1)[3] == four_digits(y2)[3]);
    assert(y1 == y2) by (nonlinear_arith)
        requires 0 <= y1 <= 9999, 0 <= y2 <= 9999, y1 / 1000 == y2 / 1000, y1 / 100 % 10 == y2 / 100 % 10,
            y1 / 10 % 10 == y2 / 10 % 10, y1 % 10 == y2 % 10;
}

} // verus!
