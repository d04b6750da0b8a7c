use sensor_beam::measurement::{Measurement, MeasurementBuilder, PAIRS};
use sensor_beam::reading::{Metric, Reading, SensorKind};
use sensor_beam::value::SampleValue;

fn reading(source: SensorKind, metric: Metric, value: f64, at: u64) -> Reading {
    Reading { source, metric, value: SampleValue::from_bits(value.to_bits()), captured_at: at }
}

fn expected(name: &str, host: &str, source: &str, value: f64, at: u64) -> Measurement {
    Measurement {
        name: name.to_string(),
        tags: vec![
            ("host".to_string(), host.to_string()),
            ("source".to_string(), source.to_string()),
        ],
        fields: vec![("value".to_string(), SampleValue::from_bits(value.to_bits()))],
        timestamp: at,
    }
}

#[test]
fn labels_of_metrics_and_sensors() {
    assert_eq!(Metric::Temperature.label(), "temperature");
    assert_eq!(Metric::Humidity.label(), "humidity");
    assert_eq!(Metric::Pressure.label(), "pressure");
    assert_eq!(SensorKind::Humidity.label(), "humidity");
    assert_eq!(SensorKind::Pressure.label(), "pressure");
    assert_eq!(PAIRS, 6);
}

#[test]
fn measurement_from_one_reading() {
    let r = reading(SensorKind::Pressure, Metric::Temperature, 23.75, 1_700_000_000_000_000_000);
    let m = Measurement::from_reading(&r, "dev");
    assert_eq!(m, expected("temperature", "dev", "pressure", 23.75, 1_700_000_000_000_000_000));
    assert_eq!(f64::from_bits(m.fields[0].1.bits), 23.75);
}

#[test]
fn clone_of_a_measurement_equals_it() {
    let m = expected("temperature", "dev", "humidity", 1.5, 7);
    assert_eq!(m.clone(), m);
}

#[test]
fn temperature_from_both_sensors() {
    let mut builder = MeasurementBuilder::new();
    let readings = vec![
        reading(SensorKind::Humidity, Metric::Temperature, 21.5, 100),
        reading(SensorKind::Pressure, Metric::Temperature, 22.0, 100),
    ];
    let out = builder.build(&readings, "dev");
    assert_eq!(
        out,
        vec![
            expected("temperature", "dev", "humidity", 21.5, 100),
            expected("temperature", "dev", "pressure", 22.0, 100),
        ]
    );
    assert_eq!(builder.rejected_count(), 0);
}

#[test]
fn no_readings_no_measurements() {
    let mut builder = MeasurementBuilder::new();
    assert_eq!(builder.build(&vec![], "dev"), vec![]);
    assert_eq!(builder.rejected_count(), 0);
}

#[test]
fn values_that_are_not_finite_are_skipped_and_counted() {
    let mut builder = MeasurementBuilder::new();
    let readings = vec![
        reading(SensorKind::Humidity, Metric::Temperature, f64::NAN, 1),
        reading(SensorKind::Pressure, Metric::Temperature, 20.0, 2),
        reading(SensorKind::Pressure, Metric::Pressure, f64::INFINITY, 3),
        reading(SensorKind::Humidity, Metric::Humidity, f64::NEG_INFINITY, 4),
    ];
    let out = builder.build(&readings, "pi");
    assert_eq!(out, vec![expected("temperature", "pi", "pressure", 20.0, 2)]);
    assert_eq!(builder.rejected_count(), 3);
    let again = builder.build(&readings, "pi");
    assert_eq!(again.len(), 1);
    assert_eq!(builder.rejected_count(), 6);
}

#[test]
fn a_skipped_reading_does_not_hide_an_older_one() {
    let mut builder = MeasurementBuilder::new();
    let readings = vec![
        reading(SensorKind::Humidity, Metric::Temperature, 19.0, 5),
        reading(SensorKind::Humidity, Metric::Temperature, f64::NAN, 9),
    ];
    let out = builder.build(&readings, "dev");
    assert_eq!(out, vec![expected("temperature", "dev", "humidity", 19.0, 5)]);
    assert_eq!(builder.rejected_count(), 1);
}

#[test]
fn newest_reading_of_a_pair_is_reported() {
    let mut builder = MeasurementBuilder::new();
    let readings = vec![
        reading(SensorKind::Humidity, Metric::Temperature, 1.0, 30),
        reading(SensorKind::Humidity, Metric::Temperature, 2.0, 50),
        reading(SensorKind::Humidity, Metric::Temperature, 3.0, 40),
    ];
    let out = builder.build(&readings, "dev");
    assert_eq!(out, vec![expected("temperature", "dev", "humidity", 2.0, 50)]);
}

#[test]
fn of_two_readings_of_one_instant_the_later_in_the_input_is_reported() {
    let mut builder = MeasurementBuilder::new();
    let readings = vec![
        reading(SensorKind::Pressure, Metric::Pressure, 1000.0, 50),
        reading(SensorKind::Pressure, Metric::Pressure, 1001.0, 50),
    ];
    let out = builder.build(&readings, "dev");
    assert_eq!(out, vec![expected("pressure", "dev", "pressure", 1001.0, 50)]);
}

#[test]
fn measurements_come_ordered_by_time_then_by_pair() {
    let mut builder = MeasurementBuilder::new();
    let readings = vec![
        reading(SensorKind::Pressure, Metric::Pressure, 1000.0, 7),
        reading(SensorKind::Pressure, Metric::Temperature, 20.0, 9),
        reading(SensorKind::Humidity, Metric::Humidity, 40.0, 7),
        reading(SensorKind::Humidity, Metric::Temperature, 21.0, 9),
        reading(SensorKind::Pressure, Metric::Humidity, 41.0, 3),
        reading(SensorKind::Humidity, Metric::Pressure, 1001.0, 7),
    ];
    let out = builder.build(&readings, "dev");
    assert_eq!(
        out,
        vec![
            expected("humidity", "dev", "pressure", 41.0, 3),
            expected("humidity", "dev", "humidity", 40.0, 7),
            expected("pressure", "dev", "humidity", 1001.0, 7),
            expected("pressure", "dev", "pressure", 1000.0, 7),
            expected("temperature", "dev", "humidity", 21.0, 9),
            expected("temperature", "dev", "pressure", 20.0, 9),
        ]
    );
}

#[test]
fn one_measurement_for_each_pair_present() {
    let mut builder = MeasurementBuilder::new();
    let mut readings = Vec::new();
    let sources = [SensorKind::Humidity, SensorKind::Pressure];
    let metrics = [Metric::Temperature, Metric::Humidity];
    for round in 0..5u64 {
        for (i, s) in sources.iter().enumerate() {
            for (j, m) in metrics.iter().enumerate() {
                let at = 1000 - round * 10 + (i as u64) * 3 + j as u64;
                readings.push(reading(*s, *m, round as f64, at));
            }
        }
    }
    let out = builder.build(&readings, "dev");
    assert_eq!(out.len(), 4);
    for s in sources.iter() {
        for m in metrics.iter() {
            let hits = out
                .iter()
                .filter(|x| x.name == m.label() && x.tags[1].1 == s.label())
                .count();
            assert_eq!(hits, 1);
        }
    }
    for w in out.windows(2) {
        assert!(w[0].timestamp <= w[1].timestamp);
    }
    for x in out.iter() {
        assert_eq!(x.fields, vec![("value".to_string(), SampleValue::from_bits(0.0f64.to_bits()))]);
        assert_eq!(x.tags[0], ("host".to_string(), "dev".to_string()));
    }
}

#[test]
fn building_is_deterministic() {
    let readings = vec![
        reading(SensorKind::Pressure, Metric::Temperature, 20.0, 9),
        reading(SensorKind::Humidity, Metric::Temperature, 21.0, 9),
        reading(SensorKind::Humidity, Metric::Humidity, f64::NAN, 9),
    ];
    let mut a = MeasurementBuilder::new();
    let mut b = MeasurementBuilder::new();
    assert_eq!(a.build(&readings, "dev"), b.build(&readings, "dev"));
    assert_eq!(a.rejected_count(), b.rejected_count());
}
