//! Disk-usage treemap: verified layout algorithms (squarified treemap and
//! grid), the aggregation of directory scans, and the scan cache that sits
//! between navigation requests and background scans.

pub mod geometry;
pub mod layout;
pub mod squarify;
pub mod view_layout;
pub mod paths;
pub mod scan;
pub mod collect;
pub mod du;
pub mod orchestrator;
pub mod text;
