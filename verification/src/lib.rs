//! Resolution of declared name paths against a loaded entity hierarchy.
//!
//! Entities may carry a name and an ordered list of children. A record
//! declares, per field, the path of names that leads from a root entity to
//! the entity the field refers to. The collector resolves all paths of a
//! record at once, the first time a pass sees the target that asks for it.

pub mod armature_loader;
pub mod declaration;
pub mod helpers;
pub mod plugin;
pub mod world;

pub use crate::armature_loader::{
    insert_armature_after_load, ArmatureLoader, ArmatureLoaderPlugin, ArmatureTarget,
    DescendantRootPosition,
};
pub use crate::declaration::{
    entity_collector_target, read_attribute, try_entity_collector_target, try_read_attribute,
    Attribute, DeclarationError, Field,
};
pub use crate::helpers::{collect_named_entity_paths, find_named_entity, find_named_grandchild};
pub use crate::plugin::{
    collect_after_load, collect_descendants_after_load, Collection, DescendantCollectorPlugin,
    DescendantCollectorTarget, DescendantLoader, FieldResolutionError, HierarchyRootPosition,
    RootNotFound,
};
pub use crate::world::NamedQuery;
