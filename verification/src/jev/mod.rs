//! TypeSafe Jev (System One) API layer: the request-independent parts.

/// Retry policy and response-cache keys.
pub mod client;
/// Measured question builders: Stage 2 Nouls, Stage 3 listwise Choice.
pub mod questions;
/// The question and usage shapes of the System One wire format.
pub mod schemas;
