pub mod num;
pub mod dates;
pub mod errors;
pub mod task;
pub mod store;
pub mod order;
pub mod laws;
pub mod codec;
