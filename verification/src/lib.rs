//! The verified core of a terminal process monitor.

pub mod ansi;
pub mod app;
pub mod color;
pub mod double;
pub mod entries;
pub mod filter;
pub mod format;
pub mod interval;
pub mod keys;
pub mod order;
pub mod paths;
pub mod process;
pub mod procfs;
pub mod reading;
pub mod rounding;
pub mod schedule;
pub mod screen;
pub mod shades;
pub mod shape;
pub mod shares;
pub mod showing;
pub mod table;
pub mod text;
pub mod tree;
pub mod units;
pub mod worker;
