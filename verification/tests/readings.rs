use sensor_beam::reading::{collect_sample, Metric, Reading, SensorError, SensorKind};
use sensor_beam::value::SampleValue;

fn reading(source: SensorKind, metric: Metric, value: f64, at: u64) -> Reading {
    Reading { source, metric, value: SampleValue::from_bits(value.to_bits()), captured_at: at }
}

fn temp(value: f64) -> Reading {
    reading(SensorKind::Humidity, Metric::Temperature, value, 1)
}

#[test]
fn bounds_of_each_metric() {
    let (lo, hi) = Metric::Temperature.bounds();
    assert_eq!((f64::from_bits(lo.bits), f64::from_bits(hi.bits)), (-40.0, 85.0));
    let (lo, hi) = Metric::Humidity.bounds();
    assert_eq!((f64::from_bits(lo.bits), f64::from_bits(hi.bits)), (0.0, 100.0));
    let (lo, hi) = Metric::Pressure.bounds();
    assert_eq!((f64::from_bits(lo.bits), f64::from_bits(hi.bits)), (260.0, 1260.0));
}

#[test]
fn temperature_is_plausible_from_minus_40_to_85() {
    assert!(temp(-40.0).is_plausible());
    assert!(temp(0.0).is_plausible());
    assert!(temp(-0.0).is_plausible());
    assert!(temp(21.5).is_plausible());
    assert!(temp(85.0).is_plausible());
    assert!(!temp(-40.5).is_plausible());
    assert!(!temp(85.5).is_plausible());
    assert!(!temp(-273.15).is_plausible());
    assert!(!temp(f64::INFINITY).is_plausible());
    assert!(!temp(f64::NEG_INFINITY).is_plausible());
    assert!(!temp(f64::NAN).is_plausible());
}

#[test]
fn humidity_and_pressure_have_their_own_bounds() {
    let h = |v: f64| reading(SensorKind::Humidity, Metric::Humidity, v, 1);
    assert!(h(0.0).is_plausible());
    assert!(h(100.0).is_plausible());
    assert!(!h(-0.1).is_plausible());
    assert!(!h(100.1).is_plausible());
    let p = |v: f64| reading(SensorKind::Pressure, Metric::Pressure, v, 1);
    assert!(p(260.0).is_plausible());
    assert!(p(1013.25).is_plausible());
    assert!(p(1260.0).is_plausible());
    assert!(!p(259.9).is_plausible());
    assert!(!p(1260.1).is_plausible());
    assert!(!p(85.0).is_plausible());
}

#[test]
fn sample_of_plausible_readings_is_accepted_in_order() {
    let a = reading(SensorKind::Humidity, Metric::Temperature, 21.5, 10);
    let b = reading(SensorKind::Pressure, Metric::Temperature, 22.25, 11);
    let c = reading(SensorKind::Pressure, Metric::Pressure, 1013.0, 12);
    let got = collect_sample(&vec![Some(a), Some(b), Some(c)]);
    assert_eq!(got, Ok(vec![a, b, c]));
}

#[test]
fn empty_sample_is_accepted() {
    assert_eq!(collect_sample(&vec![]), Ok(vec![]));
}

#[test]
fn failed_hardware_call_is_a_driver_fault() {
    let a = temp(20.0);
    assert_eq!(collect_sample(&vec![None]), Err(SensorError::DriverFault));
    assert_eq!(collect_sample(&vec![Some(a), None]), Err(SensorError::DriverFault));
    assert_eq!(collect_sample(&vec![None, Some(a)]), Err(SensorError::DriverFault));
}

#[test]
fn implausible_value_is_out_of_range() {
    let good = temp(20.0);
    assert_eq!(collect_sample(&vec![Some(temp(85.5))]), Err(SensorError::OutOfRange));
    assert_eq!(collect_sample(&vec![Some(good), Some(temp(-41.0))]), Err(SensorError::OutOfRange));
    assert_eq!(collect_sample(&vec![Some(temp(f64::NAN))]), Err(SensorError::OutOfRange));
}

#[test]
fn first_offending_channel_decides_the_error() {
    let bad = temp(200.0);
    assert_eq!(collect_sample(&vec![Some(bad), None]), Err(SensorError::OutOfRange));
    assert_eq!(collect_sample(&vec![None, Some(bad)]), Err(SensorError::DriverFault));
    assert_eq!(
        collect_sample(&vec![Some(temp(1.0)), Some(bad), None]),
        Err(SensorError::OutOfRange)
    );
}
