//! A task list kept as `todo.txt`-style lines: a line grammar that turns each
//! line into a task, and a store that numbers, buckets, filters and sorts tasks.
//!
//! A task keeps the line it was read from verbatim, so reading that line again
//! gives the same line. A date is unset exactly when its year is zero. When a
//! list is read, lines that hold nothing but white space give no task; every
//! other line gives a task whose identity is its line number.
pub mod date;
pub mod error;
pub mod list;
pub mod list_file;
pub mod query;
pub mod sort_by;
pub mod task;
pub mod task_list;
pub mod text;

pub use date::{deserialise_date, Date};
pub use error::AnansiError;
pub use list::{build_default_list, List};
pub use list_file::{deserialise_list, serialise_list};
pub use query::Filter;
pub use sort_by::SortBy;
pub use task::{deserialize_task, Task};
pub use task_list::TaskList;
pub use text::contains_text;
