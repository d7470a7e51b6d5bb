//! Collection and interchange of TCP socket diagnostics: the kernel's record
//! layout, the schema that names the tabular columns, and the three stream formats.
use vstd::prelude::*;

pub mod addr;
pub mod binary;
pub mod csv;
pub mod desc;
pub mod json;
pub mod layout;
pub mod netlink;
pub mod record;
pub mod sink;
pub mod text;
pub mod timespec;
pub mod wire;

verus! {

} // verus!
