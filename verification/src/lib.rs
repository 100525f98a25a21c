pub mod cache;
pub mod collector;
pub mod engine;
pub mod laws;
pub mod model;
pub mod pool;
pub mod record;
pub mod render;
pub mod stepper;
pub mod worker;
