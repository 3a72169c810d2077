//! Contact sheets for a tree of video files.
pub mod assoc;
pub mod cli;
pub mod frames;
pub mod order;
pub mod orphans;
pub mod path;
pub mod paths;
pub mod picture;
pub mod probe;
pub mod scan;
pub mod sheet;
pub mod sort;
pub mod stats;
pub mod strings;
pub mod tally;
pub mod text;
pub mod worker;
