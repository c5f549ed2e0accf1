//! Run-time model of a small interrupt-driven application for the SparkFun
//! SAMD21 Mini: a priority-ceiling task dispatcher and the state machines
//! that its interrupt tasks advance.
//!
//! Nothing in this crate touches hardware. Every function maps plain values
//! to plain values; the firmware performs the pin, timer and serial
//! operations that the functions ask for and reports their outcome back.
//!
//! - [`dispatch`] holds the dispatcher: task table, resource cells, lock
//!   scopes and the running priority. [`model`] is its mathematical state,
//!   with the invariant and the laws that follow from it; [`resource`] and
//!   [`task`] hold what a system is configured with.
//! - [`blink`] is the LED colour cycle of the timer task.
//! - [`serial`] is the periodic transmitter with its two status indicators,
//!   and the receive indicator.
//! - [`pin`] holds the logic levels that the state machines write.

pub mod blink;
pub mod dispatch;
pub mod model;
pub mod pin;
pub mod resource;
pub mod serial;
pub mod task;
