//! A time series database: signals of timestamped observations, stored in a
//! tree that keeps a summary per chunk so that ranges can be queried and
//! summarised at several levels of detail.

pub mod time;

pub mod observations;
pub mod btree;
pub mod query_result;
pub mod query;
pub mod trace;
pub mod summary;
pub mod track_type;
pub mod track;
pub mod notify;
pub mod db;

pub mod binzip;
pub mod colors;
pub mod layout;
pub mod session;
pub mod shipper;
