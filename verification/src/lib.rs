//! Device registry and secret synchronisation for an end-to-end-encrypted
//! note service.

pub mod account;
pub mod backend;
mod device_set;
pub mod devices_store;
pub mod error;
pub mod identity;
pub mod notes_store;
pub mod ordered_map;
mod secret_record;
