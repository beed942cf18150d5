pub mod wdl;
