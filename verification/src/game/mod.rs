pub mod outputs;
