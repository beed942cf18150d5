pub mod trainer;
pub mod validate;
