//! Shared support: fixed-width binary values and byte histograms.

pub mod binary;
pub mod histogram;
