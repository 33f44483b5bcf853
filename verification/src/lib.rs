//! An in-memory store that keeps one canonical, naturally ordered collection
//! of elements together with any number of named, filtered and independently
//! ordered projections of it, all kept consistent on every insert and removal.

pub mod dates;
pub mod indexer;
pub mod json_task;
pub mod order;
pub mod rofi;
pub mod task;

pub use dates::Date;
pub use dates::day_in_month;
pub use indexer::ElementWrapper;
pub use indexer::Handle;
pub use indexer::Index;
pub use indexer::IndexIntoIterator;
pub use indexer::Indexer;
pub use indexer::Store;
pub use json_task::JsonTask;
pub use order::AcceptAll;
pub use order::Classifier;
pub use order::Comparator;
pub use order::LexOrder;
pub use order::NaturalOrder;
pub use rofi::RofiParams;
pub use rofi::trim_newline;
pub use rofi::vec2str;
pub use task::SortTaskBy;
pub use task::Task;
pub use task::TaskFilter;
pub use task::TaskList;
pub use task::TaskOrder;
