pub mod archive;
pub mod confusion;
pub mod order;
pub mod tally;
