//! Verified core of a viewer for the resource usage of Slurm jobs: expanding Slurm
//! node lists, reading the fields of `sacct` output, the calendar days a job spans,
//! the bookkeeping of usage records, and the decisions of the terminal screen.

pub mod decimal;
pub mod nodelist;
pub mod text;
pub mod dates;
pub mod slurm;
pub mod usage;
pub mod screen;
