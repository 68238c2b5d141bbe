//! Tag resolution, provisioning, export and analytics for physical
//! souvenir tags ("imanes") that redirect to a social-media profile.

pub mod analytics;
pub mod auth;
pub mod calendar;
pub mod export;
pub mod model;
pub mod provisioning;
pub mod rank;
pub mod resolution;
pub mod store;
pub mod text;
