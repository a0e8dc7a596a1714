//! Backend logic for the Coolify deployments bar widget.
//!
//! The library turns what the Coolify servers answered into one aggregated
//! status snapshot, validates the configuration, detects deployments that
//! settled between two snapshots, and words the desktop notifications.

pub mod address;
pub mod api;
pub mod config;
pub mod notify;
pub mod open;
pub mod order;
pub mod status;
pub mod text;
pub mod watch;
