//! A small tabular-data toolkit: a typed columnar frame, quantile binning,
//! a stratified train/test splitter and one-hot encoding, each with its
//! behaviour stated in contracts and proved. The frame is generic over the
//! numeric type of its float cells and never computes with it; arithmetic on
//! those numbers is left to the caller.

pub mod binning;
pub mod encoding;
pub mod error;
pub mod frame;
pub mod order;
pub mod pipeline;
pub mod sampling;
pub mod value;
