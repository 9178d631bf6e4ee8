//! Big-integer Fibonacci chains over fixed-width limbs: the plain-integer
//! oracle, the limb codec, the carry-propagating adder with its range checks,
//! the two circuit topologies built from them, and the sizing of a circuit's
//! capacity.

pub mod adder;
pub mod bi_sum;
pub mod bigint;
pub mod chip;
pub mod fib_bi;
pub mod limbs;
pub mod search;
pub mod utils;
