//! Verified core of a small parcel-tracking web service: calendar and
//! timestamp formatting, password and session handling, cookie parsing,
//! and the decisions taken on answers of the USPS tracking API.

pub mod text;
pub mod datetime;
pub mod auth;
pub mod usps;
pub mod db;
pub mod web;
