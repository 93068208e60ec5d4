use vstd::prelude::*;
use crate::text::join_seq;

verus! {

/// A set of weekdays, stored as a bit set (bit 0 = Monday ... bit 6 = Sunday).
#[derive(Clone, Copy, Debug, PartialEq, Eq, Hash, Structural)]
pub struct DaysOfWeek {
    bits: u8,
}

/// Bit pattern of every day of the week.
pub open spec fn all_days_bits() -> u8 {
    0x7f
}

/// Full English name of day `i` (0 = Monday).
pub open spec fn day_name_spec(i: int) -> Seq<char> {
    if i == 0 { "Monday"@ }
    else if i == 1 { "Tuesday"@ }
    else if i == 2 { "Wednesday"@ }
    else if i == 3 { "Thursday"@ }
    else if i == 4 { "Friday"@ }
    else if i == 5 { "Saturday"@ }
    else { "Sunday"@ }
}

/// Three-letter name of day `i` (0 = Monday).
pub open spec fn day_short_name_spec(i: int) -> Seq<char> {
    if i == 0 { "Mon"@ }
    else if i == 1 { "Tue"@ }
    else if i == 2 { "Wed"@ }
    else if i == 3 { "Thu"@ }
    else if i == 4 { "Fri"@ }
    else if i == 5 { "Sat"@ }
    else { "Sun"@ }
}

/// Short names of the days of `d` among the first `n` days, in week order.
pub open spec fn listed_days(d: DaysOfWeek, n: int) -> Seq<Seq<char>>
    decreases n,
{
    if n <= 0 {
        Seq::empty()
    } else if d.has_day(n - 1) {
        listed_days(d, n - 1).push(day_short_name_spec(n - 1))
    } else {
        listed_days(d, n - 1)
    }
}

/// The display text of a day set.
pub open spec fn display_spec(d: DaysOfWeek) -> Seq<char> {
    if d.spec_bits() == 0x7f {
        "All days"@
    } else if d.spec_bits() == 0x1f {
        "Weekdays"@
    } else if d.spec_bits() == 0x60 {
        "Weekends"@
    } else {
        join_seq(listed_days(d, 7), ", "@)
    }
}

impl DaysOfWeek {
    #[allow(non_snake_case)]
    pub fn MONDAY() -> (r: DaysOfWeek)
        ensures
            r.spec_bits() == 0x01,
    {
        DaysOfWeek { bits: 0x01 }
    }
    #[allow(non_snake_case)]
    pub fn TUESDAY() -> (r: DaysOfWeek)
        ensures
            r.spec_bits() == 0x02,
    {
        DaysOfWeek { bits: 0x02 }
    }
    #[allow(non_snake_case)]
    pub fn WEDNESDAY() -> (r: DaysOfWeek)
        ensures
            r.spec_bits() == 0x04,
    {
        DaysOfWeek { bits: 0x04 }
    }
    #[allow(non_snake_case)]
    pub fn THURSDAY() -> (r: DaysOfWeek)
        ensures
            r.spec_bits() == 0x08,
    {
        DaysOfWeek { bits: 0x08 }
    }
    #[allow(non_snake_case)]
    pub fn FRIDAY() -> (r: DaysOfWeek)
        ensures
            r.spec_bits() == 0x10,
    {
        DaysOfWeek { bits: 0x10 }
    }
    #[allow(non_snake_case)]
    pub fn SATURDAY() -> (r: DaysOfWeek)
        ensures
            r.spec_bits() == 0x20,
    {
        DaysOfWeek { bits: 0x20 }
    }
    #[allow(non_snake_case)]
    pub fn SUNDAY() -> (r: DaysOfWeek)
        ensures
            r.spec_bits() == 0x40,
    {
        DaysOfWeek { bits: 0x40 }
    }
    #[allow(non_snake_case)]
    pub fn ALL_DAYS() -> (r: DaysOfWeek)
        ensures
            r.spec_bits() == 0x7f,
    {
        DaysOfWeek { bits: 0x7f }
    }
    #[allow(non_snake_case)]
    pub fn WEEKDAYS() -> (r: DaysOfWeek)
        ensures
            r.spec_bits() == 0x1f,
    {
        DaysOfWeek { bits: 0x1f }
    }
    #[allow(non_snake_case)]
    pub fn WEEKENDS() -> (r: DaysOfWeek)
        ensures
            r.spec_bits() == 0x60,
    {
        DaysOfWeek { bits: 0x60 }
    }

    /// The raw bit pattern.
    pub closed spec fn spec_bits(self) -> u8 {
        self.bits
    }

    /// Whether day `i` (0 = Monday) is in the set.
    pub open spec fn has_day(self, i: int) -> bool {
        0 <= i < 7 && (self.spec_bits() >> (i as u8)) & 1 == 1
    }

    /// The empty set.
    pub fn empty() -> (r: DaysOfWeek)
        ensures
            r.spec_bits() == 0,
    {
        DaysOfWeek { bits: 0 }
    }

    pub fn bits(self) -> (r: u8)
        ensures
            r == self.spec_bits(),
    {
        self.bits
    }

    /// Bit-set containment: every day of `other` is in `self`.
    pub fn contains(self, other: DaysOfWeek) -> (r: bool)
        ensures
            r == (self.spec_bits() & other.spec_bits() == other.spec_bits()),
    {
        self.bits & other.bits == other.bits
    }

    /// Add the days of `other` to `self`.
    pub fn insert(&mut self, other: DaysOfWeek)
        ensures
            final(self).spec_bits() == old(self).spec_bits() | other.spec_bits(),
    {
        self.bits = self.bits | other.bits;
    }

    /// The union of two day sets.
    pub fn union(self, other: DaysOfWeek) -> (r: DaysOfWeek)
        ensures
            r.spec_bits() == self.spec_bits() | other.spec_bits(),
    {
        DaysOfWeek { bits: self.bits | other.bits }
    }

    /// Build a day set from raw bits; `None` when a bit outside the seven days is set.
    pub fn from_bits(bits: u8) -> (r: Option<DaysOfWeek>)
        ensures
            r is Some <==> bits & 0x80 == 0,
            r matches Some(d) ==> d.spec_bits() == bits,
    {
        if bits & 0x80 == 0 {
            Some(DaysOfWeek { bits })
        } else {
            None
        }
    }

    /// Whether day `i` (0 = Monday) is in the set.
    pub fn has_day_index(self, i: u8) -> (r: bool)
        requires
            i < 7,
        ensures
            r == self.has_day(i as int),
    {
        (self.bits >> i) & 1 == 1
    }

    /// Get individual day from index (0 = Monday, 6 = Sunday).
    pub fn from_index(index: usize) -> (r: Option<DaysOfWeek>)
        ensures
            r is Some <==> index < 7,
            r matches Some(d) ==> d.spec_bits() == 1u8 << (index as u8),
    {
        if index < 7 {
            let i: u8 = index as u8;
            Some(DaysOfWeek { bits: 1u8 << i })
        } else {
            None
        }
    }

    /// Get day name from index (0 = Monday, 6 = Sunday).
    pub fn day_name(index: usize) -> (r: Option<&'static str>)
        ensures
            r is Some <==> index < 7,
            r matches Some(s) ==> s@ == day_name_spec(index as int),
    {
        match index {
            0 => Some("Monday"),
            1 => Some("Tuesday"),
            2 => Some("Wednesday"),
            3 => Some("Thursday"),
            4 => Some("Friday"),
            5 => Some("Saturday"),
            6 => Some("Sunday"),
            _ => None,
        }
    }

    /// Get short day name from index (0 = Monday, 6 = Sunday).
    pub fn day_short_name(index: usize) -> (r: Option<&'static str>)
        ensures
            r is Some <==> index < 7,
            r matches Some(s) ==> s@ == day_short_name_spec(index as int),
    {
        match index {
            0 => Some("Mon"),
            1 => Some("Tue"),
            2 => Some("Wed"),
            3 => Some("Thu"),
            4 => Some("Fri"),
            5 => Some("Sat"),
            6 => Some("Sun"),
            _ => None,
        }
    }

    /// Get a human-readable string representation.
    pub fn to_display_string(self) -> (r: String)
        ensures
            r@ == display_spec(self),
    {
        if self.is_all_days() {
            return String::from_str("All days");
        }
        if self.bits == 0x1f {
            return String::from_str("Weekdays");
        }
        if self.bits == 0x60 {
            return String::from_str("Weekends");
        }
        let mut out = String::new();
        let mut count: usize = 0;
        let mut i: u8 = 0;
        while i < 7
            invariant
                i <= 7,
                count == listed_days(self, i as int).len(),
                count <= i,
                out@ == join_seq(listed_days(self, i as int), ", "@),
            decreases 7 - i,
        {
            if self.has_day_index(i) {
                let name = match Self::day_short_name(i as usize) {
                    Some(n) => n,
                    None => "",
                };
                proof {
                    let prev = listed_days(self, i as int);
                    let next = prev.push(day_short_name_spec(i as int));
                    assert(next.drop_last() =~= prev);
                }
                if count > 0 {
                    out.append(", ");
                }
                out.append(name);
                count = count + 1;
            }
            i = i + 1;
        }
        out
    }

    /// Check if all days are enabled.
    pub fn is_all_days(self) -> (r: bool)
        ensures
            r == (self.spec_bits() == all_days_bits()),
    {
        self.bits == 0x7f
    }
}

impl Default for DaysOfWeek {
    fn default() -> (r: Self)
        ensures
            r.spec_bits() == all_days_bits(),
    {
        DaysOfWeek { bits: 0x7f }
    }
}

impl core::ops::BitOr for DaysOfWeek {
    type Output = DaysOfWeek;

    fn bitor(self, rhs: DaysOfWeek) -> (r: DaysOfWeek)
        ensures
            r.spec_bits() == self.spec_bits() | rhs.spec_bits(),
    {
        self.union(rhs)
    }
}

impl vstd::std_specs::ops::BitOrSpecImpl for DaysOfWeek {
    open spec fn obeys_bitor_spec() -> bool {
        true
    }

    open spec fn bitor_req(self, rhs: DaysOfWeek) -> bool {
        true
    }

    closed spec fn bitor_spec(self, rhs: DaysOfWeek) -> DaysOfWeek {
        DaysOfWeek { bits: self.bits | rhs.bits }
    }
}

/// Day membership is what the day indices say: `from_index(i)` is the set
/// holding exactly day `i`, and a set contains it exactly when it has day `i`.
pub proof fn lemma_single_day(d: DaysOfWeek, i: u8)
    requires
        i < 7,
    ensures
        d.has_day(i as int) <==> (d.spec_bits() & (1u8 << i) == (1u8 << i)),
{
    let b = d.spec_bits();
    assert(((b >> i) & 1 == 1) <==> (b & (1u8 << i) == (1u8 << i))) by (bit_vector)
        requires
            i < 7;
}

/// Day `e` is in a union exactly when it is in either part.
pub proof fn lemma_union_has_day(a: DaysOfWeek, b: DaysOfWeek, u: DaysOfWeek, e: int)
    requires
        u.spec_bits() == a.spec_bits() | b.spec_bits(),
    ensures
        u.has_day(e) <==> a.has_day(e) || b.has_day(e),
{
    if 0 <= e < 7 {
        let x = a.spec_bits();
        let y = b.spec_bits();
        let k = e as u8;
        assert((((x | y) >> k) & 1 == 1) <==> ((x >> k) & 1 == 1 || (y >> k) & 1 == 1)) by (bit_vector)
            requires
                k < 7;
    }
}

/// The single-day set of day `d` holds day `e` exactly when `e == d`.
pub proof fn lemma_single_has_day(s: DaysOfWeek, d: int, e: int)
    requires
        0 <= d < 7,
        s.spec_bits() == 1u8 << (d as u8),
    ensures
        s.has_day(e) <==> e == d,
{
    if 0 <= e < 7 {
        let k = e as u8;
        let j = d as u8;
        assert((((1u8 << j) >> k) & 1 == 1) <==> k == j) by (bit_vector)
            requires
                k < 7,
                j < 7;
    }
}

/// The empty set holds no day.
pub proof fn lemma_empty_has_no_day(s: DaysOfWeek, e: int)
    requires
        s.spec_bits() == 0,
    ensures
        !s.has_day(e),
{
    if 0 <= e < 7 {
        let k = e as u8;
        assert(((0u8 >> k) & 1 == 1) == false) by (bit_vector)
            requires
                k < 7;
    }
}

/// Two day sets with the same days are the same set.
pub proof fn lemma_days_extensional(a: DaysOfWeek, b: DaysOfWeek)
    requires
        a.spec_bits() < 128,
        b.spec_bits() < 128,
        forall|e: int| 0 <= e < 7 ==> (a.has_day(e) <==> b.has_day(e)),
    ensures
        a.spec_bits() == b.spec_bits(),
{
    let x = a.spec_bits();
    let y = b.spec_bits();
    assert(a.has_day(0) <==> b.has_day(0));
    assert(a.has_day(1) <==> b.has_day(1));
    assert(a.has_day(2) <==> b.has_day(2));
    assert(a.has_day(3) <==> b.has_day(3));
    assert(a.has_day(4) <==> b.has_day(4));
    assert(a.has_day(5) <==> b.has_day(5));
    assert(a.has_day(6) <==> b.has_day(6));
    assert(x == y) by (bit_vector)
        requires
            x < 128,
            y < 128,
            ((x >> 0u8) & 1 == 1) == ((y >> 0u8) & 1 == 1),
            ((x >> 1u8) & 1 == 1) == ((y >> 1u8) & 1 == 1),
            ((x >> 2u8) & 1 == 1) == ((y >> 2u8) & 1 == 1),
            ((x >> 3u8) & 1 == 1) == ((y >> 3u8) & 1 == 1),
            ((x >> 4u8) & 1 == 1) == ((y >> 4u8) & 1 == 1),
            ((x >> 5u8) & 1 == 1) == ((y >> 5u8) & 1 == 1),
            ((x >> 6u8) & 1 == 1) == ((y >> 6u8) & 1 == 1);
}

/// Every day's short name is the first three letters of its full name.
pub proof fn law_short_name_is_prefix(i: int)
    requires
        0 <= i < 7,
    ensures
        day_short_name_spec(i) == day_name_spec(i).take(3),
{
    reveal_strlit("Monday");
    reveal_strlit("Tuesday");
    reveal_strlit("Wednesday");
    reveal_strlit("Thursday");
    reveal_strlit("Friday");
    reveal_strlit("Saturday");
    reveal_strlit("Sunday");
    reveal_strlit("Mon");
    reveal_strlit("Tue");
    reveal_strlit("Wed");
    reveal_strlit("Thu");
    reveal_strlit("Fri");
    reveal_strlit("Sat");
    reveal_strlit("Sun");
    assert(day_short_name_spec(i) =~= day_name_spec(i).take(3));
}

} // verus!
