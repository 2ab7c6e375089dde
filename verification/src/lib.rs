//! Verified core of a graphical file finder: the directory tree that a search
//! runs over, the rules that decide which walked entries are results, the
//! ordering of results, and the text shown for sizes and dates.
pub mod types;
pub mod text;
pub mod path;
pub mod lexical;
pub mod sort;
pub mod calendar;
pub mod display;
pub mod dirtree;
pub mod search;
pub mod suggest;
pub mod rows;
pub mod date_order;
