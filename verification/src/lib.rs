pub mod construction;
pub mod elitism;
pub mod exchange_sequence;
pub mod gsom;
pub mod individual;
pub mod job_set;
pub mod laws;
pub mod network;
pub mod numeric;
pub mod random;
pub mod rosomaxa;
pub mod statistics;
