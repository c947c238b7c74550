use vstd::prelude::*;
use crate::readings::{highest, lemma_single_summary, lowest, max_of, min_of, total};
use crate::temperature::{temperature_text_value, unsigned_part, MINUS, ZERO};

verus! {

pub type Temperature = i16;

pub type TemperatureSum = i64;

pub type TemperatureCount = usize;

/// Summaries keyed by station, in a map of the standard library.
pub type MetricsMap<'a> = std::collections::HashMap<&'a [u8], Metrics>;

/// The running summary of one station's readings: lowest, highest, their sum
/// and how many there were.
#[derive(Debug, Clone, Copy, PartialEq, Eq, Structural)]
pub struct Metrics {
    pub min: Temperature,
    pub max: Temperature,
    pub sum: TemperatureSum,
    pub count: TemperatureCount,
}

impl Metrics {
    /// Whether these fields are the summary of the readings `r`.
    pub open spec fn summarizes(self, r: Seq<i16>) -> bool {
        &&& r.len() > 0
        &&& self.count == r.len()
        &&& self.min == lowest(r)
        &&& self.max == highest(r)
        &&& self.sum == total(r)
    }

    /// The summary of a single reading.
    pub fn new(temperature: Temperature) -> (m: Self)
        ensures
            m.min == temperature,
            m.max == temperature,
            m.sum == temperature,
            m.count == 1,
            m.summarizes(seq![temperature]),
    {
        proof {
            lemma_single_summary(temperature);
        }
        Self { max: temperature, min: temperature, sum: temperature as TemperatureSum, count: 1 }
    }

    /// Folds one more reading into the summary.
    pub fn update(&mut self, temperature: Temperature)
        requires
            i64::MIN <= old(self).sum + temperature <= i64::MAX,
            old(self).count < usize::MAX,
        ensures
            final(self).max == max_of(temperature as int, old(self).max as int),
            final(self).min == min_of(temperature as int, old(self).min as int),
            final(self).sum == old(self).sum + temperature,
            final(self).count == old(self).count + 1,
    {
        self.max = temperature.max(self.max);
        self.min = temperature.min(self.min);
        self.sum = self.sum + temperature as TemperatureSum;
        self.count = self.count + 1;
    }

    /// Folding a reading into the summary of readings `r` gives the summary
    /// of `r` followed by that reading.
    pub proof fn lemma_update_summarizes(old_m: Self, new_m: Self, r: Seq<i16>, temperature: i16)
        requires
            old_m.summarizes(r),
            new_m.max == max_of(temperature as int, old_m.max as int),
            new_m.min == min_of(temperature as int, old_m.min as int),
            new_m.sum == old_m.sum + temperature,
            new_m.count == old_m.count + 1,
        ensures
            new_m.summarizes(r.push(temperature)),
    {
        assert(r.push(temperature).drop_last() =~= r);
    }
}

/// Reads a reading written as an optional minus sign, then one or two digits,
/// a dot and one fractional digit, as a whole number of tenths of a degree.
/// The byte before the fractional digit is not looked at.
pub fn parse_temperature(buffer: &[u8]) -> (t: Temperature)
    requires
        buffer@.len() >= 1,
        unsigned_part(buffer@).len() == 3 || unsigned_part(buffer@).len() == 4,
        unsigned_part(buffer@).len() == 3 ==> unsigned_part(buffer@)[0] >= ZERO
            && unsigned_part(buffer@)[2] >= ZERO,
        unsigned_part(buffer@).len() == 4 ==> unsigned_part(buffer@)[0] >= ZERO
            && unsigned_part(buffer@)[1] >= ZERO && unsigned_part(buffer@)[3] >= ZERO,
    ensures
        t == temperature_text_value(buffer@),
{
    let len = buffer.len();
    let is_negative = buffer[0] == MINUS;
    let start_pos: usize = if is_negative { 1 } else { 0 };
    proof {
        assert(unsigned_part(buffer@) =~= buffer@.skip(start_pos as int));
    }
    let fixed = if len - start_pos == 3 {
        utf8_char_to_temperature(buffer[start_pos]) * 10 + utf8_char_to_temperature(
            buffer[start_pos + 2],
        )
    } else {
        utf8_char_to_temperature(buffer[start_pos]) * 100 + utf8_char_to_temperature(
            buffer[start_pos + 1],
        ) * 10 + utf8_char_to_temperature(buffer[start_pos + 3])
    };
    if is_negative {
        -fixed
    } else {
        fixed
    }
}

/// The value of an ASCII digit.
pub fn utf8_char_to_temperature(utf8_char: u8) -> (t: Temperature)
    requires
        utf8_char >= ZERO,
    ensures
        t == utf8_char - ZERO,
{
    (utf8_char - ZERO) as Temperature
}

} // verus!
