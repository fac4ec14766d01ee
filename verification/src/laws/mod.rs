//! What holds of the library, in words of its inputs and results.
pub mod texts;
pub mod cluster;
pub mod spots;
pub mod log;
pub mod list;
pub mod numbers;
pub mod desk;
