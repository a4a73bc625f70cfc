//! Verified readers for power system exchange formats: the DIgSILENT
//! PowerFactory DGS V5 table export and the IEEE Common Data Format, with the
//! shared text and decimal number handling they rest on.

pub mod text;
pub mod json;
pub mod decimal;
pub mod decimal_text;
pub mod dgs;
pub mod network;
pub mod ieee_cdf;
pub mod cgmes;
pub mod goc3;
pub mod egret;
