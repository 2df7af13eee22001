//! An adaptive parallel map.
//!
//! Given an ordered collection and a transformation, the library decides from
//! the input's length how the work is cut into tasks, maps each task, and puts
//! the results back together in input order. A second variant gathers results
//! in the order in which tasks finish.

pub mod chunks;
pub mod fan_in;
pub mod helpers;
pub mod mapper;
pub mod policy;

pub use chunks::{assemble, partition};
pub use fan_in::worker_channels;
pub use mapper::{plan, plan_with, run_plan, run_tasks, serial_map, worker, Plan};
pub use policy::{select, select_fan_in, Strategy, MAX_BOUND, MIN_BOUND, PART_FACTOR};
