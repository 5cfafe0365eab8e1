pub mod fingerprint;
pub mod record;
pub mod filter;
pub mod discover;
pub mod registry;
pub mod pipeline;
pub mod csv;
