//! Operators.

pub mod controlflow;
pub mod controlflow_laws;
pub mod if_run;
pub mod loop_run;
pub mod reason_laws;
pub mod scan_laws;
pub mod scan_machine;
pub mod scan_run;
pub mod views;
