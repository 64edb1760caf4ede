//! The interval value itself: five signed components plus two display
//! precisions, with construction, precision rebinding, accessors, and an
//! equality that ignores the precisions.

use vstd::prelude::*;

verus! {

/// A signed day-to-second duration.
///
/// The five components carry the numeric value; `lfprec` (leading field
/// precision) and `fsprec` (fractional second precision) only control how
/// the value renders as text. A value is meant to be sign-consistent:
/// every non-zero component non-negative, or every non-zero component
/// non-positive. Construction does not validate this; rendering treats
/// the value as negative iff any component is strictly negative.
#[derive(Debug, Clone, Copy)]
pub struct IntervalDS {
    pub days: i32,
    pub hours: i32,
    pub minutes: i32,
    pub seconds: i32,
    pub nanoseconds: i32,
    pub lfprec: u8,
    pub fsprec: u8,
}

/// The five components of `a` and `b` are pairwise equal; the precisions
/// play no part. This is what `==` on intervals means.
pub open spec fn same_value(a: IntervalDS, b: IntervalDS) -> bool {
    &&& a.days == b.days
    &&& a.hours == b.hours
    &&& a.minutes == b.minutes
    &&& a.seconds == b.seconds
    &&& a.nanoseconds == b.nanoseconds
}

/// `v` with its precisions replaced and its components untouched.
pub open spec fn spec_with_prec(v: IntervalDS, lfprec: u8, fsprec: u8) -> IntervalDS {
    IntervalDS {
        days: v.days,
        hours: v.hours,
        minutes: v.minutes,
        seconds: v.seconds,
        nanoseconds: v.nanoseconds,
        lfprec: lfprec,
        fsprec: fsprec,
    }
}

impl IntervalDS {
    /// Builds an interval from its five components, with both precisions
    /// set to 9. The documented component domains are days and
    /// nanoseconds in [-999_999_999, 999_999_999], hours in [-23, 23],
    /// minutes and seconds in [-59, 59]; out-of-domain components are not
    /// rejected, they only render without their usual fixed width.
    pub fn new(days: i32, hours: i32, minutes: i32, seconds: i32, nanoseconds: i32) -> (r:
        IntervalDS)
        ensures
            r == (IntervalDS {
                days,
                hours,
                minutes,
                seconds,
                nanoseconds,
                lfprec: 9u8,
                fsprec: 9u8,
            }),
    {
        IntervalDS { days, hours, minutes, seconds, nanoseconds, lfprec: 9, fsprec: 9 }
    }

    /// A copy of `self` with the two precisions replaced. The documented
    /// domain of each precision is [0, 9]; larger values are kept as
    /// given and merely render as if no padding or no fraction had been
    /// asked for.
    pub fn and_prec(&self, lfprec: u8, fsprec: u8) -> (r: IntervalDS)
        ensures
            r == spec_with_prec(*self, lfprec, fsprec),
    {
        IntervalDS {
            days: self.days,
            hours: self.hours,
            minutes: self.minutes,
            seconds: self.seconds,
            nanoseconds: self.nanoseconds,
            lfprec,
            fsprec,
        }
    }

    /// Returns the days component.
    pub fn days(&self) -> (r: i32)
        ensures
            r == self.days,
    {
        self.days
    }

    /// Returns the hours component.
    pub fn hours(&self) -> (r: i32)
        ensures
            r == self.hours,
    {
        self.hours
    }

    /// Returns the minutes component.
    pub fn minutes(&self) -> (r: i32)
        ensures
            r == self.minutes,
    {
        self.minutes
    }

    /// Returns the seconds component.
    pub fn seconds(&self) -> (r: i32)
        ensures
            r == self.seconds,
    {
        self.seconds
    }

    /// Returns the nanoseconds component.
    pub fn nanoseconds(&self) -> (r: i32)
        ensures
            r == self.nanoseconds,
    {
        self.nanoseconds
    }

    /// Returns the leading field precision.
    pub fn lfprec(&self) -> (r: u8)
        ensures
            r == self.lfprec,
    {
        self.lfprec
    }

    /// Returns the fractional second precision.
    pub fn fsprec(&self) -> (r: u8)
        ensures
            r == self.fsprec,
    {
        self.fsprec
    }
}

impl PartialEq for IntervalDS {
    /// Two intervals are equal iff their five components are pairwise
    /// equal; the precisions never participate.
    fn eq(&self, other: &Self) -> (r: bool) {
        self.days == other.days && self.hours == other.hours && self.minutes == other.minutes
            && self.seconds == other.seconds && self.nanoseconds == other.nanoseconds
    }
}

impl vstd::std_specs::cmp::PartialEqSpecImpl for IntervalDS {
    open spec fn obeys_eq_spec() -> bool {
        true
    }

    open spec fn eq_spec(&self, other: &IntervalDS) -> bool {
        same_value(*self, *other)
    }
}

/// The five integer fields of an externally pre-parsed native interval
/// record, held as plain values. The runtime that fills such a record is
/// an external collaborator; this type is the narrow view of it that the
/// adapter below reads.
#[derive(Debug, Clone, Copy)]
pub struct IntervalRecord {
    pub days: i32,
    pub hours: i32,
    pub minutes: i32,
    pub seconds: i32,
    pub fseconds: i32,
}

/// The part of a column type descriptor that the adapter reads: either
/// the interval-day-to-second tag with its leading field and fractional
/// second precisions, or any other tag.
#[derive(Debug, Clone, Copy)]
pub enum TypeDescriptor {
    IntervalDayToSecond(u8, u8),
    Other,
}

impl IntervalDS {
    /// Builds an interval from a native record and a type descriptor:
    /// components copied verbatim from the record, precisions taken from
    /// an interval-day-to-second descriptor, or 0/0 for any other
    /// descriptor. Total and pure; nothing is validated.
    pub fn from_record(rec: &IntervalRecord, desc: &TypeDescriptor) -> (r: IntervalDS)
        ensures
            r.days == rec.days,
            r.hours == rec.hours,
            r.minutes == rec.minutes,
            r.seconds == rec.seconds,
            r.nanoseconds == rec.fseconds,
            match *desc {
                TypeDescriptor::IntervalDayToSecond(lf, fs) => r.lfprec == lf && r.fsprec == fs,
                TypeDescriptor::Other => r.lfprec == 0 && r.fsprec == 0,
            },
    {
        let (lfprec, fsprec) = match *desc {
            TypeDescriptor::IntervalDayToSecond(lf, fs) => (lf, fs),
            TypeDescriptor::Other => (0, 0),
        };
        IntervalDS {
            days: rec.days,
            hours: rec.hours,
            minutes: rec.minutes,
            seconds: rec.seconds,
            nanoseconds: rec.fseconds,
            lfprec,
            fsprec,
        }
    }
}

} // verus!
