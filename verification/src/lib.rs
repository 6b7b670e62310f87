//! An embedded content-schema store: typed field definitions ("components"),
//! content types grouping them ("resources"), per-instance field values with
//! a read/write access mode per binding, a deterministic binary encoding for
//! the persisted records, and a taint wrapper that forces untrusted strings
//! through a sanitizing filter.

pub mod assoc;
pub mod codec;
pub mod data;
pub mod ops;
pub mod persist;
pub mod store;
pub mod taint;

pub use data::{ComponentInstance, DBResult, Data, DataIO, DataType, DatabaseError, ResourceIO};
pub use ops::{
    add_component, add_component_to_model, add_resource, get_component_data_type, get_model,
    is_static_resource, load_model, load_static_model, next_instance_id, reset, save_model,
    start_from_scratch,
};
pub use store::{Components, Instances, Resources};
pub use taint::{alphanumeric_filter, Tainted};
