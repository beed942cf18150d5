//! The integer core of a shogi and chess value-network trainer: output buckets, lambda schedules,
//! the bookkeeping of a training run, validation metrics and the shuffling of position files.

pub mod counting;
pub mod exact;
pub mod game;
pub mod shogi;
pub mod text;
pub mod trainer;
pub mod utils;
pub mod value;
