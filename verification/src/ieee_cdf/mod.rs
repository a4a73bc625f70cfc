//! Read the IEEE Common Data Format for solved load flow cases.
//!
//! A CDF file is one title card followed by fixed column sections: bus data,
//! branch data, loss zones, interchange data, and tie lines, each closed by a
//! numeric terminator card. The column ranges match the public IEEE test
//! cases. The bus, branch, and interchange sections map into the case
//! tables; loss zone names and tie lines are counted and reported.

pub mod card;
pub mod model;
pub mod read;
pub mod tables;
pub mod bus;
pub mod branch;
pub mod sections;
pub mod title;
pub mod scan;
pub mod step;
pub mod case;
pub mod parse;
pub mod detect;
pub mod laws;
