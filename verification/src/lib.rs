//! chiral: a cross-distribution package manager. This library holds its verified logic:
//! the file-tracking database, dependency resolution and install order, the checks of
//! what the host already has, the placement of archive entries, and what is made of the
//! package sources' replies. Processes, files and the network are the caller's.

pub mod text;
pub mod order;
pub mod graph;
pub mod resolve;
pub mod db;
pub mod paths;
pub mod probes;
pub mod remote;
pub mod commands;
