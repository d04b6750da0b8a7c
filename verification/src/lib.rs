//! Resilient forwarding of environmental sensor samples to a remote
//! time-series endpoint: vetting raw readings, building tagged measurements,
//! buffering batches under a bounded capacity, and deciding retries.
//!
//! Everything here is plain computation on plain values. Timers, the sensor
//! hardware and the network are driven by the caller, which feeds the results
//! of that work back in as events.

pub mod value;
pub mod reading;
pub mod measurement;
pub mod batch;
pub mod buffer;
pub mod transmit;
pub mod sample_loop;
pub mod transmit_loop;
pub mod config;
