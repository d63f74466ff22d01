pub mod required;
