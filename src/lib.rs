//! Memory introspection core: physical memory model, page-table translation,
//! bridge request planning, kernel image scanning and process enumeration.

pub mod address;
pub mod arch;
pub mod batch;
pub mod bridge;
pub mod mem;
pub mod ntos;
pub mod phys_mem;
pub mod process;
pub mod vat;
