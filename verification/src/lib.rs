pub mod laws;
pub mod local;
pub mod radix;
pub mod repack;
pub mod sizing;
pub mod twos;
