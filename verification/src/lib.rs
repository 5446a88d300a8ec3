pub mod digits;
pub mod driver;
pub mod generator;
pub mod record;
pub mod store;
pub mod sync;
pub mod timing;
