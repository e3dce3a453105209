//! Collection of armatures: records whose hierarchy comes with a scene, so
//! that the root is found below the scene, is the target itself, or is
//! given.

use crate::plugin::{
    collect_after_load, first_root_missing, passed, targets_view, DescendantCollectorTarget,
    DescendantLoader, HierarchyRootPosition, RootNotFound,
};
use crate::world::{nodes, NamedQuery};
use bevy_ecs::entity::Entity;
use vstd::prelude::*;

verus! {

/// What an armature declares: the name of its root and the paths of its
/// bones.
pub type ArmatureLoader = DescendantLoader;

/// An entity that wants an armature.
pub type ArmatureTarget = DescendantCollectorTarget;

/// Where the root of an armature lies, relative to the entity that asks for
/// it.
#[derive(Debug, Clone, Copy, PartialEq, Eq, PartialOrd)]
pub enum DescendantRootPosition {
    /// The root is the first grandchild of the target that carries the
    /// armature's root name.
    Scene,
    /// The target itself is the root.
    Direct,
    /// The entity given here is the root.
    Fixed(Entity),
}

impl Default for DescendantRootPosition {
    fn default() -> (position: Self)
        ensures
            position == DescendantRootPosition::Scene,
    {
        DescendantRootPosition::Scene
    }
}

impl DescendantRootPosition {
    /// The same position among those of a collector.
    pub open spec fn hierarchy_position(self) -> HierarchyRootPosition {
        match self {
            DescendantRootPosition::Scene => HierarchyRootPosition::Scene,
            DescendantRootPosition::Direct => HierarchyRootPosition::Direct,
            DescendantRootPosition::Fixed(entity) => HierarchyRootPosition::Fixed(entity),
        }
    }

    /// The same position among those of a collector.
    pub fn to_hierarchy_position(&self) -> (position: HierarchyRootPosition)
        ensures
            position == self.hierarchy_position(),
    {
        match self {
            DescendantRootPosition::Scene => HierarchyRootPosition::Scene,
            DescendantRootPosition::Direct => HierarchyRootPosition::Direct,
            DescendantRootPosition::Fixed(entity) => HierarchyRootPosition::Fixed(*entity),
        }
    }
}

/// One kind of armature collected at the targets that ask for it.
#[derive(Debug, Clone, PartialEq, Eq)]
pub struct ArmatureLoaderPlugin {
    pub descendant_root_position: DescendantRootPosition,
    pub loader: ArmatureLoader,
}

impl ArmatureLoaderPlugin {
    /// Collection of the armatures that `loader` declares, with their roots
    /// at `descendant_root_position`.
    pub fn new(descendant_root_position: DescendantRootPosition, loader: ArmatureLoader) -> (plugin:
        Self)
        ensures
            plugin.descendant_root_position == descendant_root_position,
            plugin.loader == loader,
    {
        ArmatureLoaderPlugin { descendant_root_position, loader }
    }
}

/// One pass over the targets whose scene was newly added: each gets its
/// armature, or the description of the bone that did not resolve. A root
/// that cannot be located stops the pass, and then no target is changed.
pub fn insert_armature_after_load(
    settings: &ArmatureLoaderPlugin,
    scenes_added: &mut Vec<ArmatureTarget>,
    o_named_query: &NamedQuery,
) -> (outcome: Result<(), RootNotFound>)
    ensures
        match outcome {
            Ok(_) => first_root_missing(
                nodes(*o_named_query),
                settings.descendant_root_position.hierarchy_position(),
                settings.loader@,
                targets_view(old(scenes_added)@),
                0,
            ) is None && passed(
                nodes(*o_named_query),
                settings.descendant_root_position.hierarchy_position(),
                settings.loader@,
                targets_view(old(scenes_added)@),
                targets_view(final(scenes_added)@),
            ),
            Err(error) => {
                &&& *final(scenes_added) == *old(scenes_added)
                &&& first_root_missing(
                    nodes(*o_named_query),
                    settings.descendant_root_position.hierarchy_position(),
                    settings.loader@,
                    targets_view(old(scenes_added)@),
                    0,
                ) matches Some(stopped_at)
                &&& error.entity_map_target == old(scenes_added)@[stopped_at as int]@.entity
                &&& error.root_entity_name@ == settings.loader@.root_entity_name
            },
        },
{
    collect_after_load(
        settings.descendant_root_position.to_hierarchy_position(),
        &settings.loader,
        scenes_added,
        o_named_query,
    )
}

} // verus!
