pub mod models;
pub mod order;
pub mod totals;
pub mod text;
pub mod prune;
pub mod navigate;
pub mod platform;
pub mod export;
pub mod mounts;
pub mod paths;
pub mod volinfo;
pub mod scan;
pub mod tree_builder;
pub mod usn;
pub mod windrive;
