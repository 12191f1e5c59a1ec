//! Per-keyboard event processing for a user-space keyboard remapper.
//!
//! The library holds the verified core: layout translation, the layer,
//! overlap and term features, the pipeline that chains them, and the
//! decisions of the per-device worker. Device access, timers and
//! configuration files live with the caller.
//!
//! `run` and `balance` state and prove that the writes to the synthetic
//! device stay balanced: no key is released more often than pressed, and
//! every press is released once the keys are up.
pub mod balance;
pub mod config;
pub mod features;
pub mod io;
pub mod keys;
pub mod layouts;
pub mod pipeline;
pub mod run;
pub mod state;
pub mod table;
pub mod worker;
