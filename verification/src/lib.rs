//! Verified core of a mime-type association manager: parsing and merging of
//! association files into a sorted store, case-insensitive search over the
//! store's keys, interpretation of the external default-handler registry's
//! answers, and the interaction state machine that ties them together.
pub mod controller;
pub mod gateway;
pub mod parse;
pub mod search;
pub mod store;
pub mod text;
