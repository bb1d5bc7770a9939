//! Scheduling, progress and delivery rules of a service that watches a Sonarr
//! library and announces missing episodes on Discord.
pub mod api;
pub mod config;
pub mod discord;
pub mod model;
pub mod planner;
pub mod service;
pub mod progress;
pub mod sonarr;
pub mod store;
pub mod text;
