pub mod digits;
pub mod driver;
pub mod partition;
pub mod reducer;
pub mod roman_numerals;

pub use digits::{get_digits, to_number};
pub use driver::numeric_core;
pub use partition::{ContiguousPartitionExt, ContiguousPartitions};
pub use reducer::{numeric_core_sequence, Operation};
pub use roman_numerals::{roman_to_u32, u32_to_roman};
