//! Counting how often each (region id, topic id) pair occurs in a line-oriented
//! event log, and laying the counts out as a three-column batch.
pub mod line;
pub mod table;
pub mod batch;
