pub mod helpers;
pub mod overrides;
pub mod scheduler;
