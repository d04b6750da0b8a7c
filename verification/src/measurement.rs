//! Tagged, timestamped measurements and the builder that derives them from
//! raw readings.

use vstd::prelude::*;
use crate::reading::{Metric, Reading, SensorKind};
use crate::value::SampleValue;

verus! {

/// One record ready for transmission.
#[derive(Debug, PartialEq, Eq)]
pub struct Measurement {
    pub name: String,
    /// Tag keys with their values.
    pub tags: Vec<(String, String)>,
    /// Field keys with their values.
    pub fields: Vec<(String, SampleValue)>,
    /// Nanoseconds since the Unix epoch.
    pub timestamp: u64,
}

/// A measurement as plain mathematical data.
pub struct MeasurementView {
    pub name: Seq<char>,
    pub tags: Seq<(Seq<char>, Seq<char>)>,
    pub fields: Seq<(Seq<char>, SampleValue)>,
    pub timestamp: u64,
}

impl View for Measurement {
    type V = MeasurementView;

    open spec fn view(&self) -> MeasurementView {
        MeasurementView {
            name: self.name@,
            tags: self.tags@.map_values(|t: (String, String)| (t.0@, t.1@)),
            fields: self.fields@.map_values(|f: (String, SampleValue)| (f.0@, f.1)),
            timestamp: self.timestamp,
        }
    }
}

/// The views of a sequence of measurements.
pub open spec fn views(ms: Seq<Measurement>) -> Seq<MeasurementView> {
    ms.map_values(|m: Measurement| m@)
}

impl Clone for Measurement {
    fn clone(&self) -> (copy: Measurement)
        ensures
            copy@ == self@,
    {
        let mut tags: Vec<(String, String)> = Vec::new();
        let mut i: usize = 0;
        while i < self.tags.len()
            invariant
                i <= self.tags.len(),
                tags.len() == i,
                forall|k: int|
                    0 <= k < i ==> tags[k].0@ == self.tags[k].0@ && tags[k].1@ == self.tags[k].1@,
            decreases self.tags.len() - i,
        {
            let key = self.tags[i].0.clone();
            let val = self.tags[i].1.clone();
            tags.push((key, val));
            i += 1;
        }
        let mut fields: Vec<(String, SampleValue)> = Vec::new();
        let mut j: usize = 0;
        while j < self.fields.len()
            invariant
                j <= self.fields.len(),
                fields.len() == j,
                forall|k: int|
                    0 <= k < j ==> fields[k].0@ == self.fields[k].0@ && fields[k].1
                        == self.fields[k].1,
            decreases self.fields.len() - j,
        {
            let key = self.fields[j].0.clone();
            fields.push((key, self.fields[j].1));
            j += 1;
        }
        let copy = Measurement { name: self.name.clone(), tags, fields, timestamp: self.timestamp };
        assert(copy@.tags =~= self@.tags);
        assert(copy@.fields =~= self@.fields);
        copy
    }
}

impl Metric {
    /// The measurement name under which the metric is reported.
    pub open spec fn name(self) -> Seq<char> {
        match self {
            Metric::Temperature => "temperature"@,
            Metric::Humidity => "humidity"@,
            Metric::Pressure => "pressure"@,
        }
    }

    /// Position of the metric among the metrics.
    pub open spec fn rank(self) -> int {
        match self {
            Metric::Temperature => 0,
            Metric::Humidity => 1,
            Metric::Pressure => 2,
        }
    }

    /// The measurement name under which the metric is reported.
    pub fn label(self) -> (s: &'static str)
        ensures
            s@ == self.name(),
    {
        match self {
            Metric::Temperature => "temperature",
            Metric::Humidity => "humidity",
            Metric::Pressure => "pressure",
        }
    }
}

impl SensorKind {
    /// The value of the `source` tag for readings of this sensor.
    pub open spec fn name(self) -> Seq<char> {
        match self {
            SensorKind::Humidity => "humidity"@,
            SensorKind::Pressure => "pressure"@,
        }
    }

    /// Position of the sensor among the sensors.
    pub open spec fn rank(self) -> int {
        match self {
            SensorKind::Humidity => 0,
            SensorKind::Pressure => 1,
        }
    }

    /// The value of the `source` tag for readings of this sensor.
    pub fn label(self) -> (s: &'static str)
        ensures
            s@ == self.name(),
    {
        match self {
            SensorKind::Humidity => "humidity",
            SensorKind::Pressure => "pressure",
        }
    }
}

/// Number of distinct (metric, sensor) pairs.
pub const PAIRS: usize = 6;

impl Reading {
    /// The (metric, sensor) pair of the reading, as a number below `PAIRS`.
    pub open spec fn pair(self) -> int {
        2 * self.metric.rank() + self.source.rank()
    }

    fn pair_slot(&self) -> (p: usize)
        ensures
            p == self.pair(),
            p < PAIRS,
    {
        let m: usize = match self.metric {
            Metric::Temperature => 0,
            Metric::Humidity => 1,
            Metric::Pressure => 2,
        };
        let s: usize = match self.source {
            SensorKind::Humidity => 0,
            SensorKind::Pressure => 1,
        };
        2 * m + s
    }
}

/// The measurement that reports one reading: named after the metric, tagged
/// with the host and the sensor, with the value as its only field.
pub open spec fn measurement_of(r: Reading, host: Seq<char>) -> MeasurementView {
    MeasurementView {
        name: r.metric.name(),
        tags: seq![("host"@, host), ("source"@, r.source.name())],
        fields: seq![("value"@, r.value)],
        timestamp: r.captured_at,
    }
}

impl Measurement {
    /// Builds the measurement that reports one reading.
    pub fn from_reading(r: &Reading, host_tag: &str) -> (m: Measurement)
        ensures
            m@ == measurement_of(*r, host_tag@),
    {
        let mut tags: Vec<(String, String)> = Vec::new();
        tags.push(("host".to_owned(), host_tag.to_owned()));
        tags.push(("source".to_owned(), r.source.label().to_owned()));
        let mut fields: Vec<(String, SampleValue)> = Vec::new();
        fields.push(("value".to_owned(), r.value));
        let m = Measurement {
            name: r.metric.label().to_owned(),
            tags,
            fields,
            timestamp: r.captured_at,
        };
        assert(m@.tags =~= measurement_of(*r, host_tag@).tags);
        assert(m@.fields =~= measurement_of(*r, host_tag@).fields);
        m
    }
}

/// Reading `j` does not replace reading `i`: it was captured earlier, or at
/// the same instant and no later in the input.
pub open spec fn not_newer(readings: Seq<Reading>, j: int, i: int) -> bool {
    readings[j].captured_at < readings[i].captured_at || (readings[j].captured_at
        == readings[i].captured_at && j <= i)
}

/// Among the first `n` readings, reading `i` is the one that speaks for its
/// (metric, sensor) pair: it is finite, and no finite reading of the same pair
/// is newer.
pub open spec fn represents_within(readings: Seq<Reading>, n: int, i: int) -> bool {
    &&& 0 <= i < n <= readings.len()
    &&& readings[i].value.finite()
    &&& forall|j: int|
        #![trigger readings[j]]
        0 <= j < n && readings[j].value.finite() && readings[j].pair() == readings[i].pair()
            ==> not_newer(readings, j, i)
}

/// Reading `i` speaks for its (metric, sensor) pair among all the readings.
pub open spec fn represents(readings: Seq<Reading>, i: int) -> bool {
    represents_within(readings, readings.len() as int, i)
}

/// The order of the output: by capture time, and by pair among readings of
/// the same instant.
pub open spec fn precedes(a: Reading, b: Reading) -> bool {
    a.captured_at < b.captured_at || (a.captured_at == b.captured_at && a.pair() < b.pair())
}

/// Every representative among `readings` occurs in `origin`.
#[verifier::opaque]
pub open spec fn covers(origin: Seq<int>, readings: Seq<Reading>) -> bool {
    forall|i: int| #[trigger] represents(readings, i) ==> origin.contains(i)
}

/// `out` reports the readings at the positions `origin`, which are exactly
/// the representatives of the pairs that occur, each once, in output order.
pub open spec fn is_build_from(
    out: Seq<MeasurementView>,
    readings: Seq<Reading>,
    host: Seq<char>,
    origin: Seq<int>,
) -> bool {
    &&& origin.len() == out.len()
    &&& forall|k: int|
        #![trigger origin[k]]
        0 <= k < out.len() ==> represents(readings, origin[k]) && out[k] == measurement_of(
            readings[origin[k]],
            host,
        )
    &&& covers(origin, readings)
    &&& forall|k: int, l: int|
        #![trigger origin[k], origin[l]]
        0 <= k < l < out.len() ==> precedes(readings[origin[k]], readings[origin[l]])
}

/// `out` is what the builder makes of `readings`: one measurement for each
/// (metric, sensor) pair that has a finite reading, taken from the newest such
/// reading, ordered by time and then by pair.
pub open spec fn is_build_of(
    out: Seq<MeasurementView>,
    readings: Seq<Reading>,
    host: Seq<char>,
) -> bool {
    exists|origin: Seq<int>| is_build_from(out, readings, host, origin)
}

/// How many readings carry a value that is not finite.
pub open spec fn malformed_count(readings: Seq<Reading>) -> nat
    decreases readings.len(),
{
    if readings.len() == 0 {
        0
    } else {
        malformed_count(readings.drop_last()) + if readings.last().value.finite() {
            0nat
        } else {
            1nat
        }
    }
}

/// A counter that stops at the largest `u64`.
pub open spec fn saturated(n: int) -> u64 {
    if n >= u64::MAX {
        u64::MAX
    } else if n <= 0 {
        0
    } else {
        n as u64
    }
}

/// What the selection loop knows of pair `p` after `n` readings.
spec fn slot_ok(readings: Seq<Reading>, n: int, p: int, slot: Option<usize>) -> bool {
    match slot {
        Some(j) => represents_within(readings, n, j as int) && readings[j as int].pair() == p,
        None => forall|j: int|
            #![trigger readings[j]]
            0 <= j < n && readings[j].value.finite() ==> readings[j].pair() != p,
    }
}

/// Converts raw readings into measurements and counts what it had to skip.
pub struct MeasurementBuilder {
    rejected: u64,
}

impl MeasurementBuilder {
    /// Readings skipped so far because their value was not finite.
    pub closed spec fn rejected(&self) -> u64 {
        self.rejected
    }

    /// A builder that has skipped nothing yet.
    pub fn new() -> (b: MeasurementBuilder)
        ensures
            b.rejected() == 0,
    {
        MeasurementBuilder { rejected: 0 }
    }

    /// Readings skipped so far because their value was not finite.
    pub fn rejected_count(&self) -> (n: u64)
        ensures
            n == self.rejected(),
    {
        self.rejected
    }

    /// For each (metric, sensor) pair, finds the newest finite reading.
    fn select(readings: &Vec<Reading>) -> (res: (Vec<Option<usize>>, usize))
        ensures
            res.0.len() == PAIRS,
            forall|p: int|
                0 <= p < PAIRS ==> slot_ok(readings@, readings.len() as int, p, #[trigger] res.0[p]),
            res.1 == malformed_count(readings@),
    {
        let mut latest: Vec<Option<usize>> = vec![None, None, None, None, None, None];
        let mut malformed: usize = 0;
        let mut i: usize = 0;
        while i < readings.len()
            invariant
                i <= readings.len(),
                latest.len() == PAIRS,
                forall|p: int| 0 <= p < PAIRS ==> slot_ok(readings@, i as int, p, #[trigger] latest[p]),
                malformed == malformed_count(readings@.take(i as int)),
                malformed <= i,
            decreases readings.len() - i,
        {
            proof {
                assert(readings@.take(i + 1).drop_last() == readings@.take(i as int));
                assert(readings@.take(i + 1).last() == readings@[i as int]);
            }
            let r = readings[i];
            let ghost before = latest@;
            if r.value.is_finite() {
                let p: usize = r.pair_slot();
                let replace = match latest[p] {
                    None => true,
                    Some(j) => readings[j].captured_at <= r.captured_at,
                };
                if replace {
                    latest.set(p, Some(i));
                }
                proof {
                    assert forall|q: int| 0 <= q < PAIRS implies slot_ok(
                        readings@,
                        i + 1,
                        q,
                        #[trigger] latest[q],
                    ) by {
                        assert(slot_ok(readings@, i as int, q, before[q]));
                    }
                }
            } else {
                malformed += 1;
                proof {
                    assert forall|q: int| 0 <= q < PAIRS implies slot_ok(
                        readings@,
                        i + 1,
                        q,
                        #[trigger] latest[q],
                    ) by {
                        assert(slot_ok(readings@, i as int, q, before[q]));
                    }
                }
            }
            i += 1;
        }
        proof {
            assert(readings@.take(i as int) == readings@);
        }
        (latest, malformed)
    }

    /// Puts the selected readings in output order.
    fn arrange(readings: &Vec<Reading>, latest: &Vec<Option<usize>>) -> (order: Vec<usize>)
        requires
            latest.len() == PAIRS,
            forall|p: int|
                0 <= p < PAIRS ==> slot_ok(readings@, readings.len() as int, p, #[trigger] latest[p]),
        ensures
            forall|k: int|
                0 <= k < order.len() ==> represents(readings@, #[trigger] order[k] as int),
            forall|i: int| #[trigger]
                represents(readings@, i) ==> exists|k: int|
                    0 <= k < order.len() && #[trigger] order[k] == i,
            forall|k: int, l: int|
                0 <= k < l < order.len() ==> precedes(
                    readings[#[trigger] order[k] as int],
                    readings[#[trigger] order[l] as int],
                ),
    {
        let mut order: Vec<usize> = Vec::new();
        let mut p: usize = 0;
        while p < PAIRS
            invariant
                p <= PAIRS,
                latest.len() == PAIRS,
                forall|q: int|
                    0 <= q < PAIRS ==> slot_ok(
                        readings@,
                        readings.len() as int,
                        q,
                        #[trigger] latest[q],
                    ),
                forall|k: int|
                    0 <= k < order.len() ==> represents(readings@, #[trigger] order[k] as int)
                        && readings[order[k] as int].pair() < p,
                forall|q: int|
                    0 <= q < p && (#[trigger] latest[q]) is Some ==> exists|k: int|
                        0 <= k < order.len() && #[trigger] order[k] == latest[q]->0,
                forall|k: int, l: int|
                    0 <= k < l < order.len() ==> precedes(
                        readings[#[trigger] order[k] as int],
                        readings[#[trigger] order[l] as int],
                    ),
            decreases PAIRS - p,
        {
            assert(slot_ok(readings@, readings.len() as int, p as int, latest[p as int]));
            match latest[p] {
                None => {},
                Some(i) => {
                    let at: u64 = readings[i].captured_at;
                    let mut pos: usize = order.len();
                    while pos > 0 && readings[order[pos - 1]].captured_at > at
                        invariant
                            pos <= order.len(),
                            i < readings.len(),
                            at == readings[i as int].captured_at,
                            forall|k: int|
                                0 <= k < order.len() ==> (#[trigger] order[k]) < readings.len(),
                            forall|k: int|
                                pos <= k < order.len() ==> readings[#[trigger] order[k] as int].captured_at
                                    > at,
                        decreases pos,
                    {
                        pos -= 1;
                    }
                    let ghost before = order@;
                    order.insert(pos, i);
                    proof {
                        assert forall|k: int, l: int| 0 <= k < l < order.len() implies precedes(
                            readings[#[trigger] order[k] as int],
                            readings[#[trigger] order[l] as int],
                        ) by {
                            if l < pos {
                                assert(order[k] == before[k] && order[l] == before[l]);
                            } else if l == pos {
                                assert(order[k] == before[k]);
                                if k < pos - 1 {
                                    assert(precedes(
                                        readings[before[k] as int],
                                        readings[before[pos - 1] as int],
                                    ));
                                }
                            } else if k < pos {
                                assert(order[k] == before[k] && order[l] == before[l - 1]);
                            } else if k == pos {
                                assert(order[l] == before[l - 1]);
                            } else {
                                assert(order[k] == before[k - 1] && order[l] == before[l - 1]);
                            }
                        }
                        assert forall|k: int| 0 <= k < order.len() implies represents(
                            readings@,
                            #[trigger] order[k] as int,
                        ) && readings[order[k] as int].pair() < p + 1 by {
                            if k < pos {
                                assert(order[k] == before[k]);
                            } else if k > pos {
                                assert(order[k] == before[k - 1]);
                            }
                        }
                        assert forall|q: int| 0 <= q < p + 1 && (#[trigger] latest[q]) is Some implies exists|
                            k: int,
                        | 0 <= k < order.len() && #[trigger] order[k] == latest[q]->0 by {
                            if q < p {
                                let k0 = choose|k: int|
                                    0 <= k < before.len() && #[trigger] before[k] == latest[q]->0;
                                if k0 < pos {
                                    assert(order[k0] == before[k0]);
                                } else {
                                    assert(order[k0 + 1] == before[k0]);
                                }
                            } else {
                                assert(order[pos as int] == i);
                            }
                        }
                    }
                },
            }
            p += 1;
        }
        proof {
            assert forall|i: int| #[trigger] represents(readings@, i) implies exists|k: int|
                0 <= k < order.len() && #[trigger] order[k] == i by {
                let q = readings@[i].pair();
                assert(slot_ok(readings@, readings.len() as int, q, latest[q]));
                assert(latest[q] is Some);
                let j = latest[q]->0 as int;
                assert(not_newer(readings@, i, j));
                assert(not_newer(readings@, j, i));
            }
        }
        order
    }

    /// Builds the measurements for one round of readings. Readings whose
    /// value is not finite are skipped and counted. Of the others, the newest
    /// of each (metric, sensor) pair is reported, tagged with `host_tag` and
    /// the sensor; the measurements come ordered by time.
    pub fn build(&mut self, readings: &Vec<Reading>, host_tag: &str) -> (out: Vec<Measurement>)
        ensures
            is_build_of(views(out@), readings@, host_tag@),
            final(self).rejected() == saturated(
                old(self).rejected() + malformed_count(readings@),
            ),
    {
        let (latest, malformed) = Self::select(readings);
        let order = Self::arrange(readings, &latest);
        let mut out: Vec<Measurement> = Vec::new();
        let mut k: usize = 0;
        while k < order.len()
            invariant
                k <= order.len(),
                out.len() == k,
                forall|m: int|
                    0 <= m < order.len() ==> represents(readings@, #[trigger] order[m] as int),
                forall|m: int|
                    0 <= m < k ==> (#[trigger] out[m])@ == measurement_of(
                        readings[order[m] as int],
                        host_tag@,
                    ),
            decreases order.len() - k,
        {
            assert(represents(readings@, order[k as int] as int));
            out.push(Measurement::from_reading(&readings[order[k]], host_tag));
            k += 1;
        }
        let skipped: u64 = malformed as u64;
        self.rejected = if skipped > u64::MAX - self.rejected {
            u64::MAX
        } else {
            self.rejected + skipped
        };
        proof {
            let origin = Seq::new(order.len() as nat, |m: int| order[m] as int);
            assert(covers(origin, readings@)) by {
                reveal(covers);
                assert forall|i: int| #[trigger] represents(readings@, i) implies origin.contains(
                    i,
                ) by {
                    let m = choose|m: int| 0 <= m < order.len() && #[trigger] order[m] == i;
                    assert(origin[m] == i);
                }
            }
            assert(is_build_from(views(out@), readings@, host_tag@, origin));
        }
        out
    }
}

/// The measurement `m` belongs to the series of `metric` as measured by
/// `source` on `host`: it has that name and those tags.
pub open spec fn reports(
    m: MeasurementView,
    metric: Metric,
    source: SensorKind,
    host: Seq<char>,
) -> bool {
    m.name == metric.name() && m.tags == seq![("host"@, host), ("source"@, source.name())]
}

/// The measurement `m` reports some finite reading among `readings`.
pub open spec fn drawn_from(m: MeasurementView, readings: Seq<Reading>, host: Seq<char>) -> bool {
    exists|i: int|
        #![trigger readings[i]]
        0 <= i < readings.len() && readings[i].value.finite() && m == measurement_of(
            readings[i],
            host,
        )
}

/// Different metrics have different names, and so have different sensors.
pub proof fn lemma_names_distinct()
    ensures
        forall|a: Metric, b: Metric| a.name() == b.name() ==> a == b,
        forall|a: SensorKind, b: SensorKind| a.name() == b.name() ==> a == b,
{
    reveal_strlit("temperature");
    reveal_strlit("humidity");
    reveal_strlit("pressure");
    assert("temperature"@.len() == 11);
    assert("humidity"@[0] == 'h');
    assert("pressure"@[0] == 'p');
}

/// Among the first `n` readings, the pair of a finite reading `i` has a
/// representative.
proof fn lemma_representative_exists(readings: Seq<Reading>, n: int, i: int) -> (j: int)
    requires
        0 <= i < n <= readings.len(),
        readings[i].value.finite(),
    ensures
        represents_within(readings, n, j),
        readings[j].pair() == readings[i].pair(),
    decreases n,
{
    let last = n - 1;
    let earlier = if i < last {
        Some(i)
    } else if exists|e: int|
        0 <= e < last && (#[trigger] readings[e]).value.finite() && readings[e].pair()
            == readings[i].pair() {
        Some(
            choose|e: int|
                0 <= e < last && (#[trigger] readings[e]).value.finite() && readings[e].pair()
                    == readings[i].pair(),
        )
    } else {
        None
    };
    match earlier {
        None => last,
        Some(e) => {
            let j0 = lemma_representative_exists(readings, last, e);
            if readings[last].value.finite() && readings[last].pair() == readings[i].pair()
                && readings[j0].captured_at <= readings[last].captured_at {
                assert forall|j: int|
                    #![trigger readings[j]]
                    0 <= j < n && readings[j].value.finite() && readings[j].pair()
                        == readings[last].pair() implies not_newer(readings, j, last) by {
                    if j < last {
                        assert(not_newer(readings, j, j0));
                    }
                }
                last
            } else {
                j0
            }
        },
    }
}

/// Every (metric, sensor) pair that has a finite reading is reported.
proof fn lemma_build_covers(
    out: Seq<MeasurementView>,
    readings: Seq<Reading>,
    host: Seq<char>,
    origin: Seq<int>,
    i: int,
) -> (k: int)
    requires
        is_build_from(out, readings, host, origin),
        0 <= i < readings.len(),
        readings[i].value.finite(),
    ensures
        0 <= k < out.len(),
        reports(out[k], readings[i].metric, readings[i].source, host),
{
    let j = lemma_representative_exists(readings, readings.len() as int, i);
    assert(represents(readings, j));
    assert(origin.contains(j)) by {
        reveal(covers);
    }
    let k = choose|k: int| 0 <= k < origin.len() && origin[k] == j;
    assert(out[k] == measurement_of(readings[origin[k]], host));
    assert(readings[j].metric == readings[i].metric);
    assert(readings[j].source == readings[i].source);
    k
}

/// No two measurements of a build belong to the same series.
proof fn lemma_build_series_differ(
    out: Seq<MeasurementView>,
    readings: Seq<Reading>,
    host: Seq<char>,
    origin: Seq<int>,
    k: int,
    l: int,
)
    requires
        is_build_from(out, readings, host, origin),
        0 <= k < l < out.len(),
    ensures
        !(out[k].name == out[l].name && out[k].tags == out[l].tags),
{
    let a = origin[k];
    let b = origin[l];
    assert(represents(readings, a) && represents(readings, b));
    assert(precedes(readings[a], readings[b]));
    assert(out[k] == measurement_of(readings[a], host));
    assert(out[l] == measurement_of(readings[b], host));
    if out[k].name == out[l].name && out[k].tags == out[l].tags {
        lemma_names_distinct();
        assert(out[k].tags[1].1 == readings[a].source.name());
        assert(out[l].tags[1].1 == readings[b].source.name());
        assert(readings[a].metric == readings[b].metric);
        assert(readings[a].source == readings[b].source);
        assert(not_newer(readings, a, b));
        assert(not_newer(readings, b, a));
    }
}

/// The builder reports every (metric, sensor) pair that has a finite reading,
/// reports nothing that was not read, reports no pair twice, and its
/// timestamps never decrease.
pub proof fn lemma_one_measurement_per_pair(
    out: Seq<MeasurementView>,
    readings: Seq<Reading>,
    host: Seq<char>,
)
    requires
        is_build_of(out, readings, host),
    ensures
        forall|i: int|
            #![trigger readings[i]]
            0 <= i < readings.len() && readings[i].value.finite() ==> exists|k: int|
                #![trigger out[k]]
                0 <= k < out.len() && reports(out[k], readings[i].metric, readings[i].source, host),
        forall|k: int| 0 <= k < out.len() ==> drawn_from(#[trigger] out[k], readings, host),
        forall|k: int, l: int|
            #![trigger out[k], out[l]]
            0 <= k < l < out.len() ==> !(out[k].name == out[l].name && out[k].tags == out[l].tags),
        forall|k: int, l: int|
            #![trigger out[k], out[l]]
            0 <= k <= l < out.len() ==> out[k].timestamp <= out[l].timestamp,
{
    let origin = choose|origin: Seq<int>| is_build_from(out, readings, host, origin);
    assert forall|i: int|
        #![trigger readings[i]]
        0 <= i < readings.len() && readings[i].value.finite() implies exists|k: int|
        #![trigger out[k]]
        0 <= k < out.len() && reports(out[k], readings[i].metric, readings[i].source, host) by {
        let k = lemma_build_covers(out, readings, host, origin, i);
    }
    assert forall|k: int| 0 <= k < out.len() implies drawn_from(
        #[trigger] out[k],
        readings,
        host,
    ) by {
        let i = origin[k];
        assert(represents(readings, i));
        assert(readings[i].value.finite() && out[k] == measurement_of(readings[i], host));
    }
    assert forall|k: int, l: int|
        #![trigger out[k], out[l]]
        0 <= k < l < out.len() implies !(out[k].name == out[l].name && out[k].tags
        == out[l].tags) by {
        lemma_build_series_differ(out, readings, host, origin, k, l);
    }
    assert forall|k: int, l: int|
        #![trigger out[k], out[l]]
        0 <= k <= l < out.len() implies out[k].timestamp <= out[l].timestamp by {
        assert(out[k] == measurement_of(readings[origin[k]], host));
        assert(out[l] == measurement_of(readings[origin[l]], host));
        if k < l {
            assert(precedes(readings[origin[k]], readings[origin[l]]));
        }
    }
}

/// Two ways of reporting the same readings list the same positions up to
/// `k`.
proof fn lemma_origins_agree(
    out1: Seq<MeasurementView>,
    out2: Seq<MeasurementView>,
    readings: Seq<Reading>,
    host: Seq<char>,
    origin1: Seq<int>,
    origin2: Seq<int>,
    k: int,
)
    requires
        is_build_from(out1, readings, host, origin1),
        is_build_from(out2, readings, host, origin2),
        0 <= k < origin1.len(),
        k < origin2.len(),
    ensures
        origin1[k] == origin2[k],
    decreases k,
{
    let a = origin1[k];
    let b = origin2[k];
    assert(represents(readings, a) && represents(readings, b));
    assert(origin2.contains(a) && origin1.contains(b)) by {
        reveal(covers);
    }
    let l = choose|l: int| 0 <= l < origin2.len() && origin2[l] == a;
    let m = choose|m: int| 0 <= m < origin1.len() && origin1[m] == b;
    if l < k {
        lemma_origins_agree(out1, out2, readings, host, origin1, origin2, l);
        assert(precedes(readings[origin1[l]], readings[origin1[k]]));
    } else if m < k {
        lemma_origins_agree(out1, out2, readings, host, origin1, origin2, m);
        assert(precedes(readings[origin2[m]], readings[origin2[k]]));
    } else if l > k && m > k {
        assert(precedes(readings[origin2[k]], readings[origin2[l]]));
        assert(precedes(readings[origin1[k]], readings[origin1[m]]));
    }
}

/// Of two ways of reporting the same readings, the second is not longer.
proof fn lemma_origins_not_longer(
    out1: Seq<MeasurementView>,
    out2: Seq<MeasurementView>,
    readings: Seq<Reading>,
    host: Seq<char>,
    origin1: Seq<int>,
    origin2: Seq<int>,
)
    requires
        is_build_from(out1, readings, host, origin1),
        is_build_from(out2, readings, host, origin2),
    ensures
        origin2.len() <= origin1.len(),
{
    if origin2.len() > origin1.len() {
        let n = origin1.len() as int;
        let b = origin2[n];
        assert(represents(readings, b));
        assert(origin1.contains(b)) by {
            reveal(covers);
        }
        let m = choose|m: int| 0 <= m < origin1.len() && origin1[m] == b;
        lemma_origins_agree(out1, out2, readings, host, origin1, origin2, m);
        assert(precedes(readings[origin2[m]], readings[origin2[n]]));
    }
}

/// The result of a build is determined by the readings and the host tag:
/// any two sequences of measurements that are a build of the same input are
/// equal.
pub proof fn lemma_build_is_determined(
    out1: Seq<MeasurementView>,
    out2: Seq<MeasurementView>,
    readings: Seq<Reading>,
    host: Seq<char>,
)
    requires
        is_build_of(out1, readings, host),
        is_build_of(out2, readings, host),
    ensures
        out1 == out2,
{
    let origin1 = choose|origin: Seq<int>| is_build_from(out1, readings, host, origin);
    let origin2 = choose|origin: Seq<int>| is_build_from(out2, readings, host, origin);
    lemma_origins_not_longer(out1, out2, readings, host, origin1, origin2);
    lemma_origins_not_longer(out2, out1, readings, host, origin2, origin1);
    assert forall|k: int| 0 <= k < out1.len() implies out1[k] == out2[k] by {
        lemma_origins_agree(out1, out2, readings, host, origin1, origin2, k);
        assert(out1[k] == measurement_of(readings[origin1[k]], host));
        assert(out2[k] == measurement_of(readings[origin2[k]], host));
    }
    assert(out1 =~= out2);
}

} // verus!
