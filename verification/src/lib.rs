pub mod heap;
pub mod laws;
pub mod model;
