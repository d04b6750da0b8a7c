//! Raw sensor readings and the plausibility check applied to every sample.

use vstd::prelude::*;
use crate::value::SampleValue;

verus! {

/// The sensor chip a reading was taken from.
#[derive(Clone, Copy, Debug, PartialEq, Eq, Structural)]
pub enum SensorKind {
    Humidity,
    Pressure,
}

/// The physical quantity a reading measures.
#[derive(Clone, Copy, Debug, PartialEq, Eq, Structural)]
pub enum Metric {
    /// Degrees Celsius.
    Temperature,
    /// Percent relative humidity.
    Humidity,
    /// Hectopascal.
    Pressure,
}

/// One raw sensor value with its origin and capture time.
#[derive(Clone, Copy, Debug, PartialEq, Eq, Structural)]
pub struct Reading {
    pub source: SensorKind,
    pub metric: Metric,
    pub value: SampleValue,
    /// Nanoseconds since the Unix epoch.
    pub captured_at: u64,
}

/// Why a sample was refused.
#[derive(Clone, Copy, Debug, PartialEq, Eq, Structural)]
pub enum SensorError {
    /// The hardware call for some channel failed.
    DriverFault,
    /// Some channel delivered a value no working sensor could measure.
    OutOfRange,
}

/// Bit pattern of -40.0.
pub const TEMPERATURE_MIN: u64 = 0xc044_0000_0000_0000;
/// Bit pattern of 85.0.
pub const TEMPERATURE_MAX: u64 = 0x4055_4000_0000_0000;
/// Bit pattern of 0.0.
pub const HUMIDITY_MIN: u64 = 0x0000_0000_0000_0000;
/// Bit pattern of 100.0.
pub const HUMIDITY_MAX: u64 = 0x4059_0000_0000_0000;
/// Bit pattern of 260.0.
pub const PRESSURE_MIN: u64 = 0x4070_4000_0000_0000;
/// Bit pattern of 1260.0.
pub const PRESSURE_MAX: u64 = 0x4093_b000_0000_0000;

impl Metric {
    /// The least value a working sensor can report for this metric.
    pub open spec fn lower(self) -> SampleValue {
        match self {
            Metric::Temperature => SampleValue { bits: TEMPERATURE_MIN },
            Metric::Humidity => SampleValue { bits: HUMIDITY_MIN },
            Metric::Pressure => SampleValue { bits: PRESSURE_MIN },
        }
    }

    /// The greatest value a working sensor can report for this metric.
    pub open spec fn upper(self) -> SampleValue {
        match self {
            Metric::Temperature => SampleValue { bits: TEMPERATURE_MAX },
            Metric::Humidity => SampleValue { bits: HUMIDITY_MAX },
            Metric::Pressure => SampleValue { bits: PRESSURE_MAX },
        }
    }

    /// The plausible interval of this metric, both ends included.
    pub fn bounds(self) -> (b: (SampleValue, SampleValue))
        ensures
            b.0 == self.lower(),
            b.1 == self.upper(),
    {
        match self {
            Metric::Temperature => (
                SampleValue { bits: TEMPERATURE_MIN },
                SampleValue { bits: TEMPERATURE_MAX },
            ),
            Metric::Humidity => (
                SampleValue { bits: HUMIDITY_MIN },
                SampleValue { bits: HUMIDITY_MAX },
            ),
            Metric::Pressure => (
                SampleValue { bits: PRESSURE_MIN },
                SampleValue { bits: PRESSURE_MAX },
            ),
        }
    }
}

impl Reading {
    /// The value lies within the plausible interval of its metric.
    pub open spec fn plausible(self) -> bool {
        self.value.within(self.metric.lower(), self.metric.upper())
    }

    /// Checks the value against the plausible interval of its metric.
    pub fn is_plausible(&self) -> (b: bool)
        ensures
            b == self.plausible(),
    {
        let (lo, hi) = self.metric.bounds();
        self.value.is_within(lo, hi)
    }
}

/// What one channel contributes to the verdict on a sample: nothing when it
/// holds a plausible reading, otherwise the error it causes.
pub open spec fn channel_error(channel: Option<Reading>) -> Option<SensorError> {
    match channel {
        None => Some(SensorError::DriverFault),
        Some(r) => if r.plausible() {
            None
        } else {
            Some(SensorError::OutOfRange)
        },
    }
}

/// The verdict on a sample: the readings of all channels when every channel
/// is in order, else the error of the first channel that is not.
pub open spec fn vetted(channels: Seq<Option<Reading>>) -> Result<Seq<Reading>, SensorError>
    decreases channels.len(),
{
    if channels.len() == 0 {
        Ok(Seq::empty())
    } else {
        match vetted(channels.drop_last()) {
            Err(e) => Err(e),
            Ok(rs) => match channel_error(channels.last()) {
                Some(e) => Err(e),
                None => Ok(rs.push(channels.last()->0)),
            },
        }
    }
}

/// Turns the raw outcome of one sampling round into a sample. Each entry of
/// `channels` is what one hardware call gave: a reading, or `None` when the
/// call failed. The sample is accepted when every channel delivered a
/// plausible reading; otherwise the first offending channel decides the
/// error.
pub fn collect_sample(channels: &Vec<Option<Reading>>) -> (sample: Result<Vec<Reading>, SensorError>)
    ensures
        match sample {
            Ok(rs) => vetted(channels@) == Ok::<Seq<Reading>, SensorError>(rs@),
            Err(e) => vetted(channels@) == Err::<Seq<Reading>, SensorError>(e),
        },
{
    let mut readings: Vec<Reading> = Vec::new();
    let mut i: usize = 0;
    while i < channels.len()
        invariant
            i <= channels.len(),
            vetted(channels@.take(i as int)) == Ok::<Seq<Reading>, SensorError>(readings@),
        decreases channels.len() - i,
    {
        proof {
            assert(channels@.take(i + 1).drop_last() == channels@.take(i as int));
            assert(channels@.take(i + 1).last() == channels@[i as int]);
        }
        match channels[i] {
            None => {
                proof {
                    lemma_vetted_error_is_final(channels@, i + 1);
                }
                return Err(SensorError::DriverFault);
            },
            Some(r) => {
                if !r.is_plausible() {
                    proof {
                        lemma_vetted_error_is_final(channels@, i + 1);
                    }
                    return Err(SensorError::OutOfRange);
                }
                readings.push(r);
            },
        }
        i += 1;
    }
    proof {
        assert(channels@.take(i as int) == channels@);
    }
    Ok(readings)
}

/// An error found in a prefix of the channels is the verdict on all of them.
proof fn lemma_vetted_error_is_final(channels: Seq<Option<Reading>>, n: int)
    requires
        0 <= n <= channels.len(),
        vetted(channels.take(n)) is Err,
    ensures
        vetted(channels) == vetted(channels.take(n)),
    decreases channels.len() - n,
{
    if n < channels.len() {
        assert(channels.take(n + 1).drop_last() == channels.take(n));
        lemma_vetted_error_is_final(channels, n + 1);
    } else {
        assert(channels.take(n) == channels);
    }
}

/// The verdict on a sample, said directly. A sample is accepted exactly when
/// every channel holds a plausible reading, and the readings accepted are
/// those of the channels, in order. A sample is refused with the error of
/// the first channel that is not in order.
pub proof fn lemma_vetted_verdict(channels: Seq<Option<Reading>>)
    ensures
        vetted(channels) is Ok <==> forall|i: int|
            0 <= i < channels.len() ==> channel_error(#[trigger] channels[i]) is None,
        vetted(channels) matches Ok(readings) ==> {
            &&& readings.len() == channels.len()
            &&& forall|i: int| 0 <= i < channels.len() ==> #[trigger] channels[i] == Some(readings[i])
        },
        vetted(channels) matches Err(e) ==> exists|i: int|
            #![trigger channels[i]]
            {
                &&& 0 <= i < channels.len()
                &&& channel_error(channels[i]) == Some(e)
                &&& forall|j: int| 0 <= j < i ==> channel_error(#[trigger] channels[j]) is None
            },
    decreases channels.len(),
{
    if channels.len() > 0 {
        let front = channels.drop_last();
        lemma_vetted_verdict(front);
        match vetted(front) {
            Err(e) => {
                let i = choose|i: int|
                    #![trigger front[i]]
                    {
                        &&& 0 <= i < front.len()
                        &&& channel_error(front[i]) == Some(e)
                        &&& forall|j: int| 0 <= j < i ==> channel_error(#[trigger] front[j]) is None
                    };
                assert(channels[i] == front[i]);
                assert forall|j: int| 0 <= j < i implies channel_error(#[trigger] channels[j]) is None by {
                    assert(channels[j] == front[j]);
                }
            },
            Ok(readings) => {
                assert forall|j: int| 0 <= j < front.len() implies channel_error(
                    #[trigger] channels[j],
                ) is None by {
                    assert(channels[j] == front[j]);
                }
                if channel_error(channels.last()) is Some {
                    assert(channels[channels.len() - 1] == channels.last());
                } else {
                    assert forall|i: int| 0 <= i < channels.len() implies #[trigger] channels[i]
                        == Some(readings.push(channels.last()->0)[i]) by {
                        if i < front.len() {
                            assert(channels[i] == front[i]);
                        }
                    }
                }
            },
        }
    }
}

} // verus!
