//! Canonical models and format selection for single substitution and
//! pair positioning subtables of OpenType layout tables.
pub mod binary;
pub mod coverage;
pub mod gpos2;
pub mod gsub1;
pub mod valuerecord;
