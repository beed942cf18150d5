pub mod shuffle;
