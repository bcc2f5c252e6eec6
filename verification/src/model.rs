//! Data model: timestamps, weight records, chart kinds.

use vstd::prelude::*;

verus! {

/// Largest weight magnitude the library stores, in thousandths of a unit
/// (the parser admits at most nine integer digits, so values stay below it).
pub const WEIGHT_MAX_MILLI: i64 = 999_999_999_999;

/// A calendar timestamp with second precision, held as plain fields.
#[derive(Clone, Copy, PartialEq, Eq, Structural, Debug)]
pub struct Timestamp {
    pub year: u32,
    pub month: u32,
    pub day: u32,
    pub hour: u32,
    pub minute: u32,
    pub second: u32,
}

impl Timestamp {
    /// A timestamp is well formed when it names a real proleptic Gregorian
    /// calendar date in years 0..=9999 and a real time of day.
    pub open spec fn wf(self) -> bool {
        &&& self.year <= 9999
        &&& 1 <= self.month <= 12
        &&& 1 <= self.day <= crate::dates::days_in_month(self.year as int, self.month as int)
        &&& self.hour < 24
        &&& self.minute < 60
        &&& self.second < 60
    }

    /// Lexicographic order on (year, month, day, hour, minute, second):
    /// chronological order for well-formed timestamps.
    pub open spec fn le(self, other: Timestamp) -> bool {
        self.key() <= other.key()
    }

    /// The timestamp flattened to one integer, ordered chronologically.
    pub open spec fn key(self) -> int {
        ((((self.year * 13 + self.month) * 32 + self.day) * 24 + self.hour) * 60 + self.minute)
            * 60 + self.second
    }
}

/// One parsed (timestamp, weight) measurement.  The weight is stored in
/// thousandths of a unit; a record whose weight field failed to parse keeps
/// the sentinel weight 0.
#[derive(Clone, Copy, PartialEq, Eq, Structural, Debug)]
pub struct WeightLine {
    pub timestamp: Timestamp,
    pub weight: i64,
}

impl WeightLine {
    /// The default scratch record: epoch timestamp, zero weight.  It exists
    /// only as a parser scratch value before a successful parse and is never
    /// part of valid output.
    pub fn new() -> (r: WeightLine)
        ensures
            r == WeightLine::default_spec(),
    {
        WeightLine {
            timestamp: Timestamp { year: 1970, month: 1, day: 1, hour: 0, minute: 0, second: 0 },
            weight: 0,
        }
    }

    /// The value `WeightLine::new` returns.
    pub open spec fn default_spec() -> WeightLine {
        WeightLine {
            timestamp: Timestamp { year: 1970, month: 1, day: 1, hour: 0, minute: 0, second: 0 },
            weight: 0,
        }
    }

    /// A record is well formed when its timestamp is a real calendar date
    /// and its weight is within the representable range.
    pub open spec fn wf(self) -> bool {
        &&& self.timestamp.wf()
        &&& -WEIGHT_MAX_MILLI <= self.weight <= WEIGHT_MAX_MILLI
    }
}

/// Every record of the sequence is well formed.
pub open spec fn all_wf(s: Seq<WeightLine>) -> bool {
    forall|i: int| 0 <= i < s.len() ==> #[trigger] s[i].wf()
}

/// The sequence is chronologically sorted (non-decreasing timestamps).
pub open spec fn sorted_by_ts(s: Seq<WeightLine>) -> bool {
    forall|i: int, j: int| 0 <= i <= j < s.len() ==> #[trigger] s[i].timestamp.le(#[trigger] s[j].timestamp)
}

/// The relative canvas-size tier of a chart: whole-series charts widest,
/// year charts medium, month charts smallest.
#[allow(non_camel_case_types)]
#[derive(Clone, Copy, PartialEq, Eq, Structural, Debug)]
pub enum PlotType {
    FULL,
    YEAR,
    MONTH,
}

} // verus!
