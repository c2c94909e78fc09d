pub mod bridge;
pub mod recorder;
pub mod report;
pub mod runtime;
pub mod sessions;
pub mod store;
pub mod tally;
pub mod text;
pub mod tracker;
