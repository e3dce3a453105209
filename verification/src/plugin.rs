//! Locating the root of a record's hierarchy and collecting records for the
//! targets that ask for one.

use crate::helpers::{
    acyclic, clone_path, collect_named_entity_paths, find_named_grandchild, find_named_path,
    is_listing, lemma_listing_of_acyclic_world, named_entity_paths, resolve_grandchild,
    resolve_path,
};
use crate::world::{nodes, NamedQuery, NodeView};
use bevy_ecs::entity::Entity;
use vstd::prelude::*;

verus! {

/// Where the root of a record's hierarchy lies, relative to the entity that
/// asks for the record.
#[derive(Debug, Clone, Copy, PartialEq, Eq, PartialOrd)]
pub enum HierarchyRootPosition {
    /// A loaded scene hangs its content under a wrapper entity of its own, so
    /// the root is the first grandchild of the target that carries the
    /// record's root name.
    Scene,
    /// The root is the first child of the target that carries the record's
    /// root name.
    Child,
    /// The target itself is the root. The record's root name is not looked
    /// at.
    Direct,
    /// The entity given here is the root, whatever the target is. The record's
    /// root name is not looked at.
    Fixed(Entity),
}

impl Default for HierarchyRootPosition {
    fn default() -> (position: Self)
        ensures
            position == HierarchyRootPosition::Scene,
    {
        HierarchyRootPosition::Scene
    }
}

/// No entity at the configured position carries the record's root name.
#[derive(Debug, Clone, PartialEq, Eq)]
pub struct RootNotFound {
    /// The entity that asked for the record.
    pub entity_map_target: Entity,
    /// The root name that was searched for.
    pub root_entity_name: String,
}

/// The root that `position` designates for a record with root name
/// `root_entity_name` asked for at `entity_map_target`.
pub open spec fn locate_root(
    world: Map<Entity, NodeView>,
    position: HierarchyRootPosition,
    entity_map_target: Entity,
    root_entity_name: Seq<char>,
) -> Option<Entity> {
    match position {
        HierarchyRootPosition::Scene => resolve_grandchild(
            world,
            entity_map_target,
            root_entity_name,
        ),
        HierarchyRootPosition::Child => resolve_path(
            world,
            entity_map_target,
            seq![root_entity_name],
            0,
        ),
        HierarchyRootPosition::Direct => Some(entity_map_target),
        HierarchyRootPosition::Fixed(entity) => Some(entity),
    }
}

impl HierarchyRootPosition {
    /// Finds the root from which the paths of a record are resolved. Only
    /// `Scene` and `Child` can fail; the error then names the target and the
    /// root name, which is what a report of the failure starts from.
    pub fn locate(
        &self,
        named_query: &NamedQuery,
        entity_map_target: Entity,
        root_entity_name: &String,
    ) -> (located: Result<Entity, RootNotFound>)
        ensures
            match located {
                Ok(root) => locate_root(
                    nodes(*named_query),
                    *self,
                    entity_map_target,
                    root_entity_name@,
                ) == Some(root),
                Err(error) => locate_root(
                    nodes(*named_query),
                    *self,
                    entity_map_target,
                    root_entity_name@,
                ) is None && error.entity_map_target == entity_map_target
                    && error.root_entity_name@ == root_entity_name@,
            },
    {
        let found = match self {
            HierarchyRootPosition::Scene => find_named_grandchild(
                entity_map_target,
                named_query,
                root_entity_name.as_str(),
            ),
            HierarchyRootPosition::Child => {
                let mut name_path: Vec<String> = Vec::new();
                name_path.push(root_entity_name.clone());
                assert(name_path.deep_view() =~= seq![root_entity_name@]);
                find_named_path(entity_map_target, named_query, &name_path)
            },
            HierarchyRootPosition::Direct => Some(entity_map_target),
            HierarchyRootPosition::Fixed(entity) => Some(*entity),
        };
        match found {
            Some(root) => Ok(root),
            None => Err(
                RootNotFound { entity_map_target, root_entity_name: root_entity_name.clone() },
            ),
        }
    }
}

/// What a failed field resolution looks like to specifications.
pub struct FieldResolutionErrorView {
    pub entity_map_target: Entity,
    pub entity_source_root: Entity,
    pub field: nat,
    pub name_path: Seq<Seq<char>>,
    pub named_entity_paths: Seq<Seq<Seq<char>>>,
}

/// A declared path of a record did not resolve below the record's root.
#[derive(Debug, Clone, PartialEq, Eq)]
pub struct FieldResolutionError {
    /// The entity that asked for the record.
    pub entity_map_target: Entity,
    /// The root below which the paths were resolved.
    pub entity_source_root: Entity,
    /// The position of the field among the declared ones.
    pub field: usize,
    /// The declared path of that field.
    pub name_path: Vec<String>,
    /// The leaf paths that do exist below the root.
    pub named_entity_paths: Vec<Vec<String>>,
}

impl View for FieldResolutionError {
    type V = FieldResolutionErrorView;

    open spec fn view(&self) -> FieldResolutionErrorView {
        FieldResolutionErrorView {
            entity_map_target: self.entity_map_target,
            entity_source_root: self.entity_source_root,
            field: self.field as nat,
            name_path: self.name_path.deep_view(),
            named_entity_paths: self.named_entity_paths.deep_view(),
        }
    }
}

/// The first field at or after `from` whose path does not resolve below
/// `root`.
pub open spec fn first_unresolved(
    world: Map<Entity, NodeView>,
    root: Entity,
    name_paths: Seq<Seq<Seq<char>>>,
    from: nat,
) -> Option<nat>
    decreases name_paths.len() - from,
{
    if from >= name_paths.len() {
        None
    } else if resolve_path(world, root, name_paths[from as int], 0) is None {
        Some(from)
    } else {
        first_unresolved(world, root, name_paths, from + 1)
    }
}

/// The record that the declared paths give below `root`: one entity per
/// field, in the order of declaration, when every path resolves. When one
/// does not there is no record, only the position of the first field that
/// fails.
pub open spec fn collected(
    world: Map<Entity, NodeView>,
    root: Entity,
    name_paths: Seq<Seq<Seq<char>>>,
) -> Result<Seq<Entity>, nat> {
    match first_unresolved(world, root, name_paths, 0) {
        None => Ok(
            Seq::new(name_paths.len(), |i: int| resolve_path(world, root, name_paths[i], 0)->0),
        ),
        Some(field) => Err(field),
    }
}

/// Whether `error` describes the failure of the field at position `field`
/// of a record asked for at `entity_map_target` and resolved below `root`:
/// it names both entities, the field and its declared path, and it lists
/// the leaf paths below `root`.
pub open spec fn describes_failure(
    error: FieldResolutionErrorView,
    world: Map<Entity, NodeView>,
    root: Entity,
    entity_map_target: Entity,
    name_paths: Seq<Seq<Seq<char>>>,
    field: nat,
) -> bool {
    &&& error.entity_map_target == entity_map_target
    &&& error.entity_source_root == root
    &&& error.field == field
    &&& error.name_path == name_paths[field as int]
    &&& is_listing(world, root, error.named_entity_paths)
}

/// What a loader looks like to specifications.
pub struct DescendantLoaderView {
    pub root_entity_name: Seq<char>,
    pub name_paths: Seq<Seq<Seq<char>>>,
}

/// What a record declares: the name of the root of its hierarchy and, per
/// field, the path of names that leads from that root to the field's entity.
/// An empty path stands for the root itself.
#[derive(Debug, Clone, PartialEq, Eq)]
pub struct DescendantLoader {
    pub root_entity_name: String,
    pub name_paths: Vec<Vec<String>>,
}

impl View for DescendantLoader {
    type V = DescendantLoaderView;

    open spec fn view(&self) -> DescendantLoaderView {
        DescendantLoaderView {
            root_entity_name: self.root_entity_name@,
            name_paths: self.name_paths.deep_view(),
        }
    }
}

impl DescendantLoader {
    /// A loader for a record with this root name and these field paths.
    pub fn new(root_entity_name: String, name_paths: Vec<Vec<String>>) -> (loader: Self)
        ensures
            loader.root_entity_name == root_entity_name,
            loader.name_paths == name_paths,
    {
        DescendantLoader { root_entity_name, name_paths }
    }

    /// The name that the root of the record's hierarchy carries.
    pub fn get_root_entity_name(&self) -> (name: &String)
        ensures
            name@ == self@.root_entity_name,
    {
        &self.root_entity_name
    }

    /// Resolves every declared path below `entity_source_root` and returns
    /// the entities found, one per field. Nothing is returned for a part of
    /// the fields: the first path that fails makes the whole record fail,
    /// and the error lists the leaf paths below the root, which are walked
    /// only then.
    pub fn collect_descendants(
        &self,
        entity_source_root: Entity,
        entity_map_target: Entity,
        named_query: &NamedQuery,
    ) -> (record: Result<Vec<Entity>, FieldResolutionError>)
        ensures
            match record {
                Ok(entities) => collected(
                    nodes(*named_query),
                    entity_source_root,
                    self@.name_paths,
                ) == Ok::<Seq<Entity>, nat>(entities@),
                Err(error) => collected(
                    nodes(*named_query),
                    entity_source_root,
                    self@.name_paths,
                ) matches Err(field) && describes_failure(
                    error@,
                    nodes(*named_query),
                    entity_source_root,
                    entity_map_target,
                    self@.name_paths,
                    field,
                ),
            },
    {
        let ghost world = nodes(*named_query);
        let ghost name_paths = self@.name_paths;
        let mut entities: Vec<Entity> = Vec::new();
        let mut field: usize = 0;
        while field < self.name_paths.len()
            invariant
                field <= self.name_paths.len(),
                world == nodes(*named_query),
                name_paths == self.name_paths.deep_view(),
                entities.len() == field,
                first_unresolved(world, entity_source_root, name_paths, 0) == first_unresolved(
                    world,
                    entity_source_root,
                    name_paths,
                    field as nat,
                ),
                forall|i: int|
                    0 <= i < field ==> resolve_path(
                        world,
                        entity_source_root,
                        #[trigger] name_paths[i],
                        0,
                    ) == Some(entities@[i]),
            decreases self.name_paths.len() - field,
        {
            assert(name_paths[field as int] == self.name_paths[field as int].deep_view());
            match find_named_path(entity_source_root, named_query, &self.name_paths[field]) {
                Some(entity) => {
                    entities.push(entity);
                },
                None => {
                    let name_path = clone_path(&self.name_paths[field]);
                    let named_entity_paths = collect_named_entity_paths(
                        entity_source_root,
                        named_query,
                    );
                    return Err(
                        FieldResolutionError {
                            entity_map_target,
                            entity_source_root,
                            field,
                            name_path,
                            named_entity_paths,
                        },
                    );
                },
            }
            field += 1;
        }
        assert(entities@ =~= Seq::new(
            name_paths.len(),
            |i: int| resolve_path(world, entity_source_root, name_paths[i], 0)->0,
        ));
        Ok(entities)
    }
}

/// What a target looks like to specifications.
pub struct DescendantCollectorTargetView {
    pub entity: Entity,
    pub state: CollectionView,
}

/// What the state of a target looks like to specifications.
pub enum CollectionView {
    Added,
    Collected(Seq<Entity>),
    Unresolved(FieldResolutionErrorView),
}

/// How far the collection for a target has come.
#[derive(Debug, Clone, PartialEq, Eq)]
pub enum Collection {
    /// The target was added and no pass has seen it yet.
    Added,
    /// The record was assembled: one entity per declared field.
    Collected(Vec<Entity>),
    /// A pass tried and a field did not resolve. The target stays without a
    /// record, and no later pass tries again.
    Unresolved(FieldResolutionError),
}

impl View for Collection {
    type V = CollectionView;

    open spec fn view(&self) -> CollectionView {
        match self {
            Collection::Added => CollectionView::Added,
            Collection::Collected(entities) => CollectionView::Collected(entities@),
            Collection::Unresolved(error) => CollectionView::Unresolved(error@),
        }
    }
}

/// Marks an entity as one that wants a record: the paths of the record are to
/// be resolved in the hierarchy that the entity carries, once.
#[derive(Debug, Clone, PartialEq, Eq)]
pub struct DescendantCollectorTarget {
    entity: Entity,
    state: Collection,
}

impl View for DescendantCollectorTarget {
    type V = DescendantCollectorTargetView;

    closed spec fn view(&self) -> DescendantCollectorTargetView {
        DescendantCollectorTargetView { entity: self.entity, state: self.state@ }
    }
}

impl DescendantCollectorTarget {
    /// A new target on `entity`, for the next pass to take up.
    pub fn new(entity: Entity) -> (target: Self)
        ensures
            target@ == (DescendantCollectorTargetView { entity, state: CollectionView::Added }),
    {
        DescendantCollectorTarget { entity, state: Collection::Added }
    }

    /// The entity that the target marks.
    pub fn entity(&self) -> (entity: Entity)
        ensures
            entity == self@.entity,
    {
        self.entity
    }

    /// How far the collection for this target has come.
    pub fn state(&self) -> (state: &Collection)
        ensures
            state@ == self@.state,
    {
        &self.state
    }

    /// The record, once it has been collected.
    pub fn descendants(&self) -> (entities: Option<&Vec<Entity>>)
        ensures
            match entities {
                Some(found) => self@.state == CollectionView::Collected(found@),
                None => !(self@.state is Collected),
            },
    {
        match &self.state {
            Collection::Collected(entities) => Some(entities),
            _ => None,
        }
    }
}

/// One kind of record collected at the targets that ask for it: where the
/// root of its hierarchy lies, and what it declares.
#[derive(Debug, Clone, PartialEq, Eq)]
pub struct DescendantCollectorPlugin {
    pub relative_root_position: HierarchyRootPosition,
    pub loader: DescendantLoader,
}

impl DescendantCollectorPlugin {
    /// Collection of the records that `loader` declares, with their roots
    /// at `relative_root_position`.
    pub fn new(relative_root_position: HierarchyRootPosition, loader: DescendantLoader) -> (plugin:
        Self)
        ensures
            plugin.relative_root_position == relative_root_position,
            plugin.loader == loader,
    {
        DescendantCollectorPlugin { relative_root_position, loader }
    }
}

/// Whether a pass has to stop at `target`: it is newly added and the root
/// of its hierarchy is not where `position` says.
pub open spec fn root_missing(
    world: Map<Entity, NodeView>,
    position: HierarchyRootPosition,
    loader: DescendantLoaderView,
    target: DescendantCollectorTargetView,
) -> bool {
    target.state is Added && locate_root(
        world,
        position,
        target.entity,
        loader.root_entity_name,
    ) is None
}

/// Whether a pass that runs to its end makes `after` of the target
/// `before`. A newly added target gets its record, or the description of
/// why it has none. Any other target is left as it is: its record is not
/// replaced, and nothing is resolved for it again.
pub open spec fn pass_outcome(
    world: Map<Entity, NodeView>,
    position: HierarchyRootPosition,
    loader: DescendantLoaderView,
    before: DescendantCollectorTargetView,
    after: DescendantCollectorTargetView,
) -> bool {
    if before.state is Added {
        match locate_root(world, position, before.entity, loader.root_entity_name) {
            Some(root) => after.entity == before.entity && match collected(
                world,
                root,
                loader.name_paths,
            ) {
                Ok(entities) => after.state == CollectionView::Collected(entities),
                Err(field) => after.state matches CollectionView::Unresolved(error)
                    && describes_failure(
                    error,
                    world,
                    root,
                    before.entity,
                    loader.name_paths,
                    field,
                ),
            },
            None => after == before,
        }
    } else {
        after == before
    }
}

/// The first target at or after `from` at which a pass has to stop.
pub open spec fn first_root_missing(
    world: Map<Entity, NodeView>,
    position: HierarchyRootPosition,
    loader: DescendantLoaderView,
    targets: Seq<DescendantCollectorTargetView>,
    from: nat,
) -> Option<nat>
    decreases targets.len() - from,
{
    if from >= targets.len() {
        None
    } else if root_missing(world, position, loader, targets[from as int]) {
        Some(from)
    } else {
        first_root_missing(world, position, loader, targets, from + 1)
    }
}

/// Whether a pass that runs to its end makes `after` of the targets
/// `before`: there are as many, and each is the outcome of the target at
/// its position.
pub open spec fn passed(
    world: Map<Entity, NodeView>,
    position: HierarchyRootPosition,
    loader: DescendantLoaderView,
    before: Seq<DescendantCollectorTargetView>,
    after: Seq<DescendantCollectorTargetView>,
) -> bool {
    before.len() == after.len() && forall|i: int|
        0 <= i < before.len() ==> pass_outcome(
            world,
            position,
            loader,
            before[i],
            #[trigger] after[i],
        )
}

/// The views of a list of targets.
pub open spec fn targets_view(targets: Seq<DescendantCollectorTarget>) -> Seq<
    DescendantCollectorTargetView,
> {
    targets.map_values(|target: DescendantCollectorTarget| target@)
}

/// The roots of the newly added targets, one entry per target and `None`
/// for a target that is not newly added; or the first target whose root is
/// missing.
fn locate_roots(
    position: HierarchyRootPosition,
    loader: &DescendantLoader,
    collector_targets: &Vec<DescendantCollectorTarget>,
    name_query: &NamedQuery,
) -> (located: Result<Vec<Option<Entity>>, RootNotFound>)
    ensures
        match located {
            Ok(roots) => first_root_missing(
                nodes(*name_query),
                position,
                loader@,
                targets_view(collector_targets@),
                0,
            ) is None && roots.len() == collector_targets.len() && forall|i: int|
                0 <= i < roots.len() ==> #[trigger] roots@[i] == if collector_targets@[i]@.state is Added {
                    locate_root(
                        nodes(*name_query),
                        position,
                        collector_targets@[i]@.entity,
                        loader@.root_entity_name,
                    )
                } else {
                    None
                },
            Err(error) => first_root_missing(
                nodes(*name_query),
                position,
                loader@,
                targets_view(collector_targets@),
                0,
            ) matches Some(stopped_at) && error.entity_map_target == collector_targets@[stopped_at as int]@.entity
                && error.root_entity_name@ == loader@.root_entity_name,
        },
{
    let ghost world = nodes(*name_query);
    let ghost targets = targets_view(collector_targets@);
    let mut roots: Vec<Option<Entity>> = Vec::new();
    let mut k: usize = 0;
    while k < collector_targets.len()
        invariant
            k <= collector_targets.len(),
            world == nodes(*name_query),
            targets == targets_view(collector_targets@),
            roots.len() == k,
            first_root_missing(world, position, loader@, targets, 0) == first_root_missing(
                world,
                position,
                loader@,
                targets,
                k as nat,
            ),
            forall|i: int|
                0 <= i < k ==> #[trigger] roots@[i] == if collector_targets@[i]@.state is Added {
                    locate_root(world, position, collector_targets@[i]@.entity, loader@.root_entity_name)
                } else {
                    None
                },
        decreases collector_targets.len() - k,
    {
        let target = &collector_targets[k];
        assert(targets[k as int] == target@);
        match target.state {
            Collection::Added => {
                match position.locate(name_query, target.entity, loader.get_root_entity_name()) {
                    Ok(root) => {
                        roots.push(Some(root));
                    },
                    Err(error) => {
                        return Err(error);
                    },
                }
            },
            _ => {
                roots.push(None);
            },
        }
        k += 1;
    }
    Ok(roots)
}

/// One pass over the targets of a record kind.
///
/// Every newly added target has its root located and the declared paths
/// resolved below it; it leaves the pass with its record, or with the
/// description of the field that did not resolve. A target that an earlier
/// pass has seen is not touched.
///
/// A root that cannot be located stops the pass. The error names the first
/// such target, and no target is changed: none has been given a record,
/// and all that were newly added still are.
pub fn collect_after_load(
    position: HierarchyRootPosition,
    loader: &DescendantLoader,
    collector_targets: &mut Vec<DescendantCollectorTarget>,
    name_query: &NamedQuery,
) -> (outcome: Result<(), RootNotFound>)
    ensures
        match outcome {
            Ok(_) => first_root_missing(
                nodes(*name_query),
                position,
                loader@,
                targets_view(old(collector_targets)@),
                0,
            ) is None && passed(
                nodes(*name_query),
                position,
                loader@,
                targets_view(old(collector_targets)@),
                targets_view(final(collector_targets)@),
            ),
            Err(error) => {
                &&& *final(collector_targets) == *old(collector_targets)
                &&& first_root_missing(
                    nodes(*name_query),
                    position,
                    loader@,
                    targets_view(old(collector_targets)@),
                    0,
                ) matches Some(stopped_at)
                &&& error.entity_map_target == old(collector_targets)@[stopped_at as int]@.entity
                &&& error.root_entity_name@ == loader@.root_entity_name
            },
        },
{
    let roots = match locate_roots(position, loader, collector_targets, name_query) {
        Ok(roots) => roots,
        Err(error) => {
            return Err(error);
        },
    };
    let ghost world = nodes(*name_query);
    let ghost before = targets_view(collector_targets@);
    let mut k: usize = 0;
    while k < collector_targets.len()
        invariant
            k <= collector_targets.len(),
            world == nodes(*name_query),
            collector_targets.len() == before.len(),
            roots.len() == before.len(),
            forall|i: int|
                0 <= i < roots.len() ==> #[trigger] roots@[i] == if before[i].state is Added {
                    locate_root(world, position, before[i].entity, loader@.root_entity_name)
                } else {
                    None
                },
            forall|i: int|
                0 <= i < k ==> pass_outcome(
                    world,
                    position,
                    loader@,
                    before[i],
                    (#[trigger] collector_targets@[i])@,
                ),
            forall|i: int| k <= i < before.len() ==> (#[trigger] collector_targets@[i])@ == before[i],
        decreases collector_targets.len() - k,
    {
        assert(collector_targets@[k as int]@ == before[k as int]);
        assert(roots@[k as int] == if before[k as int].state is Added {
            locate_root(world, position, before[k as int].entity, loader@.root_entity_name)
        } else {
            None
        });
        if let Some(root) = roots[k] {
            let entity = collector_targets[k].entity;
            let state = match loader.collect_descendants(root, entity, name_query) {
                Ok(entities) => Collection::Collected(entities),
                Err(error) => Collection::Unresolved(error),
            };
            collector_targets.set(k, DescendantCollectorTarget { entity, state });
        }
        k += 1;
    }
    assert(passed(world, position, loader@, before, targets_view(collector_targets@))) by {
        assert forall|i: int| 0 <= i < before.len() implies pass_outcome(
            world,
            position,
            loader@,
            before[i],
            #[trigger] targets_view(collector_targets@)[i],
        ) by {
            assert(targets_view(collector_targets@)[i] == collector_targets@[i]@);
        }
    }
    Ok(())
}

/// One pass of a collector over its targets: `collect_after_load` with the
/// position and the loader that the collector was set up with.
pub fn collect_descendants_after_load(
    settings: &DescendantCollectorPlugin,
    collector_targets: &mut Vec<DescendantCollectorTarget>,
    name_query: &NamedQuery,
) -> (outcome: Result<(), RootNotFound>)
    ensures
        match outcome {
            Ok(_) => first_root_missing(
                nodes(*name_query),
                settings.relative_root_position,
                settings.loader@,
                targets_view(old(collector_targets)@),
                0,
            ) is None && passed(
                nodes(*name_query),
                settings.relative_root_position,
                settings.loader@,
                targets_view(old(collector_targets)@),
                targets_view(final(collector_targets)@),
            ),
            Err(error) => {
                &&& *final(collector_targets) == *old(collector_targets)
                &&& first_root_missing(
                    nodes(*name_query),
                    settings.relative_root_position,
                    settings.loader@,
                    targets_view(old(collector_targets)@),
                    0,
                ) matches Some(stopped_at)
                &&& error.entity_map_target == old(collector_targets)@[stopped_at as int]@.entity
                &&& error.root_entity_name@ == settings.loader@.root_entity_name
            },
        },
{
    collect_after_load(
        settings.relative_root_position,
        &settings.loader,
        collector_targets,
        name_query,
    )
}

/// `first_unresolved` names the field with the least position whose path
/// fails, and `None` means that every path from `from` on resolves.
pub proof fn lemma_first_unresolved_is_first(
    world: Map<Entity, NodeView>,
    root: Entity,
    name_paths: Seq<Seq<Seq<char>>>,
    from: nat,
)
    ensures
        match first_unresolved(world, root, name_paths, from) {
            Some(field) => from <= field < name_paths.len() && resolve_path(
                world,
                root,
                name_paths[field as int],
                0,
            ) is None && forall|i: int|
                from <= i < field ==> resolve_path(world, root, #[trigger] name_paths[i], 0) is Some,
            None => forall|i: int|
                from <= i < name_paths.len() ==> resolve_path(
                    world,
                    root,
                    #[trigger] name_paths[i],
                    0,
                ) is Some,
        },
    decreases name_paths.len() - from,
{
    if from < name_paths.len() && resolve_path(world, root, name_paths[from as int], 0) is Some {
        lemma_first_unresolved_is_first(world, root, name_paths, from + 1);
    }
}

/// A record is all or nothing. There is one exactly when every declared
/// path resolves, and it then holds, field by field, the entity that the
/// field's path resolves to. When a single path fails there is no record,
/// however many of the other paths resolve.
pub proof fn lemma_record_is_all_or_nothing(
    world: Map<Entity, NodeView>,
    root: Entity,
    name_paths: Seq<Seq<Seq<char>>>,
)
    ensures
        collected(world, root, name_paths) is Ok <==> forall|i: int|
            0 <= i < name_paths.len() ==> resolve_path(world, root, #[trigger] name_paths[i], 0) is Some,
        collected(world, root, name_paths) matches Ok(entities) ==> entities.len()
            == name_paths.len() && forall|i: int|
            0 <= i < name_paths.len() ==> resolve_path(world, root, #[trigger] name_paths[i], 0)
                == Some(entities[i]),
        collected(world, root, name_paths) matches Err(field) ==> field < name_paths.len()
            && resolve_path(world, root, name_paths[field as int], 0) is None,
{
    lemma_first_unresolved_is_first(world, root, name_paths, 0);
}

/// A target that fails to resolve a field leaves the pass without a
/// record, whatever its other fields resolve to.
pub proof fn lemma_pass_attaches_whole_records(
    world: Map<Entity, NodeView>,
    position: HierarchyRootPosition,
    loader: DescendantLoaderView,
    before: DescendantCollectorTargetView,
    after: DescendantCollectorTargetView,
    field: int,
)
    requires
        before.state is Added,
        locate_root(world, position, before.entity, loader.root_entity_name) matches Some(root)
            && 0 <= field < loader.name_paths.len() && resolve_path(
            world,
            root,
            loader.name_paths[field],
            0,
        ) is None,
        pass_outcome(world, position, loader, before, after),
    ensures
        after.state is Unresolved,
        after.entity == before.entity,
{
    let root = locate_root(world, position, before.entity, loader.root_entity_name)->0;
    lemma_record_is_all_or_nothing(world, root, loader.name_paths);
}

/// In a world without cycles the description of a failure is one: its
/// listing is `named_entity_paths` of the root.
pub proof fn lemma_failure_lists_the_whole_subtree(
    error: FieldResolutionErrorView,
    world: Map<Entity, NodeView>,
    root: Entity,
    entity_map_target: Entity,
    name_paths: Seq<Seq<Seq<char>>>,
    field: nat,
)
    requires
        describes_failure(error, world, root, entity_map_target, name_paths, field),
        acyclic(world),
    ensures
        error == (FieldResolutionErrorView {
            entity_map_target,
            entity_source_root: root,
            field,
            name_path: name_paths[field as int],
            named_entity_paths: named_entity_paths(world, root),
        }),
{
    lemma_listing_of_acyclic_world(world, root, error.named_entity_paths);
}

/// `first_root_missing` names the target with the least position at which
/// a pass has to stop, and `None` means that it has to stop at none.
proof fn lemma_first_root_missing_is_first(
    world: Map<Entity, NodeView>,
    position: HierarchyRootPosition,
    loader: DescendantLoaderView,
    targets: Seq<DescendantCollectorTargetView>,
    from: nat,
)
    ensures
        match first_root_missing(world, position, loader, targets, from) {
            Some(stopped_at) => from <= stopped_at < targets.len() && root_missing(
                world,
                position,
                loader,
                targets[stopped_at as int],
            ) && forall|i: int|
                from <= i < stopped_at ==> !root_missing(world, position, loader, #[trigger] targets[i]),
            None => forall|i: int|
                from <= i < targets.len() ==> !root_missing(
                    world,
                    position,
                    loader,
                    #[trigger] targets[i],
                ),
        },
    decreases targets.len() - from,
{
    if from < targets.len() && !root_missing(world, position, loader, targets[from as int]) {
        lemma_first_root_missing_is_first(world, position, loader, targets, from + 1);
    }
}

/// A pass stops exactly when some newly added target has no root, and then
/// at the first of them.
pub proof fn lemma_pass_stops_at_first_missing_root(
    world: Map<Entity, NodeView>,
    position: HierarchyRootPosition,
    loader: DescendantLoaderView,
    targets: Seq<DescendantCollectorTargetView>,
)
    ensures
        match first_root_missing(world, position, loader, targets, 0) {
            Some(stopped_at) => stopped_at < targets.len() && root_missing(
                world,
                position,
                loader,
                targets[stopped_at as int],
            ) && forall|i: int|
                0 <= i < stopped_at ==> !root_missing(world, position, loader, #[trigger] targets[i]),
            None => forall|i: int|
                0 <= i < targets.len() ==> !root_missing(
                    world,
                    position,
                    loader,
                    #[trigger] targets[i],
                ),
        },
{
    lemma_first_root_missing_is_first(world, position, loader, targets, 0);
}

/// A pass that runs to its end leaves no target newly added and keeps the
/// entities that the targets mark.
pub proof fn lemma_pass_leaves_none_added(
    world: Map<Entity, NodeView>,
    position: HierarchyRootPosition,
    loader: DescendantLoaderView,
    before: Seq<DescendantCollectorTargetView>,
    after: Seq<DescendantCollectorTargetView>,
)
    requires
        first_root_missing(world, position, loader, before, 0) is None,
        passed(world, position, loader, before, after),
    ensures
        forall|i: int|
            0 <= i < after.len() ==> !((#[trigger] after[i]).state is Added) && after[i].entity
                == before[i].entity,
{
    lemma_first_root_missing_is_first(world, position, loader, before, 0);
    assert forall|i: int| 0 <= i < after.len() implies !((#[trigger] after[i]).state is Added)
        && after[i].entity == before[i].entity by {
        assert(!root_missing(world, position, loader, before[i]));
        assert(pass_outcome(world, position, loader, before[i], after[i]));
    }
}

/// Once a target has its record, no pass replaces the record or resolves
/// anything for that target again, whatever the world has become and
/// however the collection is configured. The same holds of a target whose
/// one attempt failed.
pub proof fn lemma_seen_target_is_left_alone(
    world: Map<Entity, NodeView>,
    position: HierarchyRootPosition,
    loader: DescendantLoaderView,
    before: DescendantCollectorTargetView,
    after: DescendantCollectorTargetView,
)
    requires
        !(before.state is Added),
    ensures
        !root_missing(world, position, loader, before),
        pass_outcome(world, position, loader, before, after) <==> after == before,
{
}

/// A second pass over what a pass has left cannot fail and changes
/// nothing, in the same world or in any other.
pub proof fn lemma_second_pass_changes_nothing(
    world: Map<Entity, NodeView>,
    later_world: Map<Entity, NodeView>,
    position: HierarchyRootPosition,
    loader: DescendantLoaderView,
    before: Seq<DescendantCollectorTargetView>,
    after: Seq<DescendantCollectorTargetView>,
    later: Seq<DescendantCollectorTargetView>,
)
    requires
        first_root_missing(world, position, loader, before, 0) is None,
        passed(world, position, loader, before, after),
    ensures
        first_root_missing(later_world, position, loader, after, 0) is None,
        passed(later_world, position, loader, after, later) <==> later == after,
{
    lemma_pass_leaves_none_added(world, position, loader, before, after);
    lemma_first_root_missing_is_first(later_world, position, loader, after, 0);
    if let Some(stopped_at) = first_root_missing(later_world, position, loader, after, 0) {
        assert(!(after[stopped_at as int].state is Added));
    }
    if passed(later_world, position, loader, after, later) {
        assert forall|i: int| 0 <= i < after.len() implies later[i] == after[i] by {
            assert(!(after[i].state is Added));
            assert(pass_outcome(later_world, position, loader, after[i], later[i]));
        }
        assert(later =~= after);
    }
    if later == after {
        assert forall|i: int| 0 <= i < after.len() implies pass_outcome(
            later_world,
            position,
            loader,
            after[i],
            #[trigger] later[i],
        ) by {
            assert(!(after[i].state is Added));
        }
    }
}

/// `Direct` and `Fixed` cannot fail: they name the root without a search
/// and without looking at the root name.
pub proof fn lemma_direct_and_fixed_always_locate(
    world: Map<Entity, NodeView>,
    entity_map_target: Entity,
    fixed: Entity,
    root_entity_name: Seq<char>,
)
    ensures
        locate_root(world, HierarchyRootPosition::Direct, entity_map_target, root_entity_name)
            == Some(entity_map_target),
        locate_root(world, HierarchyRootPosition::Fixed(fixed), entity_map_target, root_entity_name)
            == Some(fixed),
{
}

} // verus!
