//! Physical and virtual memory.
pub mod addr;
pub mod flags;
pub mod page_table;
pub mod walk;
pub mod layout;
pub mod mapping;
pub mod mapper;
pub mod translate;
pub mod shared_mem;
pub mod space;
pub mod laws;
pub mod map_laws;
pub mod table_laws;
pub mod mapping_laws;
pub mod space_laws;
