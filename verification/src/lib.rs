//! Adaptive weighted selection of recurring tasks.
//!
//! From a list of weighted tasks and a rolling history of completed work,
//! the library picks how many tasks are due today and draws them at random,
//! without replacement, with weights that push each task toward its
//! configured completions-per-cycle target.

pub mod count_table;
pub mod daily_tasks;
mod outside;

pub use count_table::CountTable;
pub use daily_tasks::{Task, WorkDay, SelectError};
pub use daily_tasks::{
    cycle_cutoff, filter_last_cycle, generate_weights, num_tasks_today, record_run,
    tally_completions, tasks_for_today, tasks_last_cycle, the_choosening,
};
