//! Verified planning and sequential kernels of a set of parallel (MPI)
//! algorithms: block and cyclic data distribution, counting sort, block
//! matrix distribution and the communication schedules of Cannon's and
//! Fox's matrix multiplication.
pub mod partition;
pub mod counting_sort;
pub mod error;
pub mod matrix;
pub mod rows;
pub mod blocks;
pub mod grid;
