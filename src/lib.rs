//! Reconstructs, from an issue tracker's event feeds, a timeline of open
//! issue and pull request counts broken down by canonical label.
pub mod repo;
pub mod retry;
pub mod run;
pub mod cache;
pub mod event;
pub mod labels;
pub mod link;
pub mod timeline;
