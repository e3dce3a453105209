//! Searching a hierarchy by name: descent along a path of names, the
//! two-level search for a nested root, and the listing of all leaf paths.

use crate::world::{children_of, name_of, nodes, NamedQuery, NodeView};
use bevy_ecs::entity::Entity;
use vstd::prelude::*;

verus! {

/// Whether `entity` is in `world` and carries exactly `name`.
pub open spec fn is_named(world: Map<Entity, NodeView>, entity: Entity, name: Seq<char>) -> bool {
    name_of(world, entity) == Some(name)
}

/// The first entity among `children[from..]` that is named `name`.
pub open spec fn first_named(
    world: Map<Entity, NodeView>,
    children: Seq<Entity>,
    name: Seq<char>,
    from: nat,
) -> Option<Entity>
    decreases children.len() - from,
{
    if from >= children.len() {
        None
    } else if is_named(world, children[from as int], name) {
        Some(children[from as int])
    } else {
        first_named(world, children, name, from + 1)
    }
}

/// Descent from `root` along `segments[from..]`: each segment picks, among
/// the direct children of the entity reached so far, the first one that
/// carries the segment as its name. When no child does, the descent fails;
/// siblings of an earlier choice are never tried again.
pub open spec fn resolve_path(
    world: Map<Entity, NodeView>,
    root: Entity,
    segments: Seq<Seq<char>>,
    from: nat,
) -> Option<Entity>
    decreases segments.len() - from,
{
    if from >= segments.len() {
        Some(root)
    } else {
        match children_of(world, root) {
            None => None,
            Some(children) => match first_named(world, children, segments[from as int], 0) {
                None => None,
                Some(child) => resolve_path(world, child, segments, from + 1),
            },
        }
    }
}

/// The first entity named `name` among the children of `children[from..]`,
/// taken child by child and, under each child, in the order of its list.
pub open spec fn first_named_below(
    world: Map<Entity, NodeView>,
    children: Seq<Entity>,
    name: Seq<char>,
    from: nat,
) -> Option<Entity>
    decreases children.len() - from,
{
    if from >= children.len() {
        None
    } else {
        let under_first = match children_of(world, children[from as int]) {
            Some(grandchildren) => first_named(world, grandchildren, name, 0),
            None => None,
        };
        match under_first {
            Some(found) => Some(found),
            None => first_named_below(world, children, name, from + 1),
        }
    }
}

/// The first entity named `target_name` exactly two levels below `root`.
/// Neither `root` nor its children are held against the name.
pub open spec fn resolve_grandchild(
    world: Map<Entity, NodeView>,
    root: Entity,
    target_name: Seq<char>,
) -> Option<Entity> {
    match children_of(world, root) {
        Some(children) => first_named_below(world, children, target_name, 0),
        None => None,
    }
}

/// The leaf paths of the subtree of `entity`, each behind `prefix`, from a
/// walk that goes at most `depth` levels down.
///
/// A named entity adds its name to the path; an unnamed one adds nothing.
/// An entity with a non-empty child list passes the path on to its
/// children, in their order. An entity without children (no list, or an
/// empty one) ends the path: it yields that one path when it is named, and
/// none when it is not. An entity that the world does not hold has neither
/// name nor children and yields nothing.
pub open spec fn leaf_paths(
    world: Map<Entity, NodeView>,
    entity: Entity,
    prefix: Seq<Seq<char>>,
    depth: nat,
) -> Seq<Seq<Seq<char>>>
    decreases depth, 0nat, 0nat,
{
    if depth == 0 {
        Seq::empty()
    } else {
        let path = match name_of(world, entity) {
            Some(name) => prefix.push(name),
            None => prefix,
        };
        match children_of(world, entity) {
            Some(children) if children.len() > 0 => leaf_paths_below(
                world,
                children,
                path,
                (depth - 1) as nat,
                0,
            ),
            _ => if name_of(world, entity) is Some {
                seq![path]
            } else {
                Seq::empty()
            },
        }
    }
}

/// The leaf paths under each of `children[from..]`, behind `path`, child
/// after child, each from a walk of at most `depth` levels.
pub open spec fn leaf_paths_below(
    world: Map<Entity, NodeView>,
    children: Seq<Entity>,
    path: Seq<Seq<char>>,
    depth: nat,
    from: nat,
) -> Seq<Seq<Seq<char>>>
    decreases depth, 1nat, children.len() - from,
{
    if from >= children.len() {
        Seq::empty()
    } else {
        leaf_paths(world, children[from as int], path, depth) + leaf_paths_below(
            world,
            children,
            path,
            depth,
            from + 1,
        )
    }
}

/// The leaf paths below `root` from a walk that goes as many levels down
/// as the world has entities. A hierarchy without cycles is never deeper
/// than that, so this is then the listing of the whole subtree.
pub open spec fn named_entity_paths(world: Map<Entity, NodeView>, root: Entity) -> Seq<
    Seq<Seq<char>>,
> {
    leaf_paths(world, root, Seq::empty(), world.dom().len())
}

/// Whether `paths` are the leaf paths below `root` from a walk that goes
/// at least as many levels down as the world has entities, and ends.
pub open spec fn is_listing(
    world: Map<Entity, NodeView>,
    root: Entity,
    paths: Seq<Seq<Seq<char>>>,
) -> bool {
    world.dom().finite() && exists|depth: nat|
        world.dom().len() <= depth && paths == #[trigger] leaf_paths(
            world,
            root,
            Seq::empty(),
            depth,
        )
}

/// The names that a list of string slices spells.
pub open spec fn names_of(terms: Seq<&str>) -> Seq<Seq<char>> {
    terms.map_values(|term: &str| term@)
}

/// The first of `children` that is named `name`.
pub fn first_named_child(named_query: &NamedQuery, children: &[Entity], name: &String) -> (found:
    Option<Entity>)
    ensures
        found == first_named(nodes(*named_query), children@, name@, 0),
{
    let mut k: usize = 0;
    while k < children.len()
        invariant
            k <= children.len(),
            first_named(nodes(*named_query), children@, name@, 0) == first_named(
                nodes(*named_query),
                children@,
                name@,
                k as nat,
            ),
        decreases children.len() - k,
    {
        let child = children[k];
        if let Some(text) = named_query.name(child) {
            if text.to_owned() == *name {
                return Some(child);
            }
        }
        k += 1;
    }
    None
}

/// Follows `name_path` down from `root_entity`, one level per name, and
/// returns the entity reached.
pub fn find_named_path(root_entity: Entity, named_query: &NamedQuery, name_path: &Vec<String>) -> (found:
    Option<Entity>)
    ensures
        found == resolve_path(nodes(*named_query), root_entity, name_path.deep_view(), 0),
{
    let ghost world = nodes(*named_query);
    let ghost segments = name_path.deep_view();
    let mut current = root_entity;
    let mut depth: usize = 0;
    while depth < name_path.len()
        invariant
            depth <= name_path.len(),
            world == nodes(*named_query),
            segments == name_path.deep_view(),
            resolve_path(world, root_entity, segments, 0) == resolve_path(
                world,
                current,
                segments,
                depth as nat,
            ),
        decreases name_path.len() - depth,
    {
        let children = match named_query.children(current) {
            Some(children) => children,
            None => {
                return None;
            },
        };
        match first_named_child(named_query, children, &name_path[depth]) {
            Some(child) => {
                current = child;
            },
            None => {
                return None;
            },
        }
        depth += 1;
    }
    Some(current)
}

/// Follows `search_terms` down from `root_entity`, one level per term, and
/// returns the entity reached. With no terms that is `root_entity` itself,
/// whether or not the world holds it.
pub fn find_named_entity(
    root_entity: Entity,
    named_query: &NamedQuery,
    search_terms: &[&str],
) -> (found: Option<Entity>)
    ensures
        found == resolve_path(nodes(*named_query), root_entity, names_of(search_terms@), 0),
{
    let mut name_path: Vec<String> = Vec::new();
    let mut k: usize = 0;
    while k < search_terms.len()
        invariant
            k <= search_terms.len(),
            name_path.len() == k,
            forall|j: int| 0 <= j < k ==> name_path@[j]@ == search_terms@[j]@,
        decreases search_terms.len() - k,
    {
        name_path.push(search_terms[k].to_owned());
        k += 1;
    }
    assert(name_path.deep_view() =~= names_of(search_terms@));
    find_named_path(root_entity, named_query, &name_path)
}

/// Searches exactly two levels below `root_entity` for an entity named
/// `target_name`: the children of its first child, then those of its second
/// child, and so on. The first match wins.
pub fn find_named_grandchild(
    root_entity: Entity,
    named_query: &NamedQuery,
    target_name: &str,
) -> (found: Option<Entity>)
    ensures
        found == resolve_grandchild(nodes(*named_query), root_entity, target_name@),
{
    let name = target_name.to_owned();
    let children = match named_query.children(root_entity) {
        Some(children) => children,
        None => {
            return None;
        },
    };
    let ghost world = nodes(*named_query);
    let mut k: usize = 0;
    while k < children.len()
        invariant
            k <= children.len(),
            name@ == target_name@,
            world == nodes(*named_query),
            children_of(world, root_entity) == Some(children@),
            first_named_below(world, children@, name@, 0) == first_named_below(
                world,
                children@,
                name@,
                k as nat,
            ),
        decreases children.len() - k,
    {
        if let Some(grandchildren) = named_query.children(children[k]) {
            if let Some(found) = first_named_child(named_query, grandchildren, &name) {
                return Some(found);
            }
        }
        k += 1;
    }
    None
}

/// A copy of `path`.
pub(crate) fn clone_path(path: &Vec<String>) -> (copy: Vec<String>)
    ensures
        copy.deep_view() == path.deep_view(),
{
    let mut copy: Vec<String> = Vec::new();
    let mut k: usize = 0;
    while k < path.len()
        invariant
            k <= path.len(),
            copy.len() == k,
            forall|j: int| 0 <= j < k ==> copy@[j]@ == path@[j]@,
        decreases path.len() - k,
    {
        copy.push(path[k].clone());
        k += 1;
    }
    assert(copy.deep_view() =~= path.deep_view());
    copy
}

/// Appends to `paths` the leaf paths of the subtree of `entity`, each
/// behind `current_path`, from a walk of at most `depth` levels: at depth 0
/// nothing is appended, at depth 1 only `entity` itself is looked at.
pub fn collect_paths_internal(
    entity: Entity,
    current_path: &Vec<String>,
    named_query: &NamedQuery,
    depth: usize,
    paths: &mut Vec<Vec<String>>,
)
    ensures
        final(paths).deep_view() == old(paths).deep_view() + leaf_paths(
            nodes(*named_query),
            entity,
            current_path.deep_view(),
            depth as nat,
        ),
    decreases depth,
{
    let ghost world = nodes(*named_query);
    let ghost before = paths.deep_view();
    if depth == 0 {
        assert(before + Seq::<Seq<Seq<char>>>::empty() =~= before);
        return ;
    }
    let mut new_path = clone_path(current_path);
    let named = match named_query.name(entity) {
        Some(name) => {
            new_path.push(name.to_owned());
            true
        },
        None => false,
    };
    assert(new_path.deep_view() =~= match name_of(world, entity) {
        Some(name) => current_path.deep_view().push(name),
        None => current_path.deep_view(),
    });
    let children = named_query.children(entity);
    let populated = match children {
        Some(list) => list.len() > 0,
        None => false,
    };
    if populated {
        let list = children.unwrap();
        let mut k: usize = 0;
        assert(before + Seq::<Seq<Seq<char>>>::empty() =~= before);
        while k < list.len()
            invariant
                k <= list.len(),
                depth > 0,
                world == nodes(*named_query),
                before + leaf_paths_below(
                    world,
                    list@,
                    new_path.deep_view(),
                    (depth - 1) as nat,
                    0,
                ) == paths.deep_view() + leaf_paths_below(
                    world,
                    list@,
                    new_path.deep_view(),
                    (depth - 1) as nat,
                    k as nat,
                ),
            decreases list.len() - k,
        {
            let ghost so_far = paths.deep_view();
            let ghost rest = leaf_paths_below(
                world,
                list@,
                new_path.deep_view(),
                (depth - 1) as nat,
                (k + 1) as nat,
            );
            let ghost first = leaf_paths(
                world,
                list[k as int],
                new_path.deep_view(),
                (depth - 1) as nat,
            );
            collect_paths_internal(list[k], &new_path, named_query, depth - 1, paths);
            assert((so_far + first) + rest =~= so_far + (first + rest));
            k += 1;
        }
        assert(paths.deep_view() + Seq::<Seq<Seq<char>>>::empty() =~= paths.deep_view());
    } else if named {
        paths.push(new_path);
        assert(paths.deep_view() =~= before + seq![new_path.deep_view()]);
    } else {
        assert(before + Seq::<Seq<Seq<char>>>::empty() =~= before);
    }
}

/// Lists the name path of every leaf below `source_root`, in the order in
/// which a walk that takes children in their order meets the leaves. The
/// listing is what a failed lookup shows as the paths that do exist; it
/// visits the whole subtree and is not meant for the path that succeeds.
///
/// The walk goes as many levels down as the query counts entities, which
/// is at least as many as the world holds. In a world without cycles that
/// is the whole subtree, and the listing is `named_entity_paths`.
pub fn collect_named_entity_paths(source_root: Entity, named_query: &NamedQuery) -> (paths: Vec<
    Vec<String>,
>)
    ensures
        is_listing(nodes(*named_query), source_root, paths.deep_view()),
        acyclic(nodes(*named_query)) ==> paths.deep_view() == named_entity_paths(
            nodes(*named_query),
            source_root,
        ),
{
    let depth = named_query.entity_count();
    let mut paths: Vec<Vec<String>> = Vec::new();
    let root_path: Vec<String> = Vec::new();
    assert(paths.deep_view() =~= Seq::<Seq<Seq<char>>>::empty());
    assert(root_path.deep_view() =~= Seq::<Seq<char>>::empty());
    collect_paths_internal(source_root, &root_path, named_query, depth, &mut paths);
    proof {
        let world = nodes(*named_query);
        let listed = leaf_paths(world, source_root, Seq::empty(), depth as nat);
        assert(Seq::<Seq<Seq<char>>>::empty() + listed =~= listed);
        if acyclic(world) {
            lemma_named_entity_paths_are_complete(world, source_root, depth as nat);
        }
    }
    paths
}

/// Whether `node` can be reached from `root` by going from an entity to one of
/// its children exactly `depth` times.
pub open spec fn reaches(world: Map<Entity, NodeView>, root: Entity, node: Entity, depth: nat) -> bool
    decreases depth,
{
    if depth == 0 {
        node == root
    } else {
        exists|k: int| #[trigger]
            has_child_at(world, root, k) && reaches(
                world,
                children_of(world, root)->0[k],
                node,
                (depth - 1) as nat,
            )
    }
}

/// Whether `parent` has a child list with a position `k`.
pub open spec fn has_child_at(world: Map<Entity, NodeView>, parent: Entity, k: int) -> bool {
    children_of(world, parent) matches Some(children) && 0 <= k < children.len()
}

/// What `first_named` finds is the match with the least position: nothing
/// before it carries the name, and `None` means that nothing at all does.
pub proof fn lemma_first_named_is_first(
    world: Map<Entity, NodeView>,
    children: Seq<Entity>,
    name: Seq<char>,
    from: nat,
)
    ensures
        match first_named(world, children, name, from) {
            Some(found) => exists|k: int|
                from <= k < children.len() && #[trigger] children[k] == found && is_named(
                    world,
                    found,
                    name,
                ) && forall|j: int| from <= j < k ==> !is_named(world, #[trigger] children[j], name),
            None => forall|j: int|
                from <= j < children.len() ==> !is_named(world, #[trigger] children[j], name),
        },
    decreases children.len() - from,
{
    if from < children.len() && !is_named(world, children[from as int], name) {
        lemma_first_named_is_first(world, children, name, from + 1);
        if let Some(found) = first_named(world, children, name, from + 1) {
            let k = choose|k: int|
                from + 1 <= k < children.len() && #[trigger] children[k] == found && is_named(
                    world,
                    found,
                    name,
                ) && forall|j: int|
                    from + 1 <= j < k ==> !is_named(world, #[trigger] children[j], name);
            assert(from <= k < children.len() && children[k] == found);
        }
    } else if from < children.len() {
        assert(children[from as int] == children[from as int]);
    }
}

/// A descent along `segments[from..]` that succeeds ends exactly
/// `segments.len() - from` levels below where it began, at an entity that
/// carries the last segment.
proof fn lemma_resolve_path_depth_from(
    world: Map<Entity, NodeView>,
    root: Entity,
    segments: Seq<Seq<char>>,
    from: nat,
)
    requires
        from <= segments.len(),
    ensures
        match resolve_path(world, root, segments, from) {
            Some(node) => reaches(world, root, node, (segments.len() - from) as nat) && (from
                < segments.len() ==> is_named(world, node, segments.last())),
            None => from < segments.len(),
        },
    decreases segments.len() - from,
{
    if from < segments.len() {
        if let Some(children) = children_of(world, root) {
            lemma_first_named_is_first(world, children, segments[from as int], 0);
            if let Some(child) = first_named(world, children, segments[from as int], 0) {
                lemma_resolve_path_depth_from(world, child, segments, from + 1);
                if let Some(node) = resolve_path(world, child, segments, from + 1) {
                    let k = choose|k: int|
                        0 <= k < children.len() && #[trigger] children[k] == child;
                    assert(has_child_at(world, root, k));
                }
            }
        }
    }
}

/// An empty path resolves to the root itself. Any other path either fails
/// or ends exactly as many levels below the root as it has segments, at a
/// entity named by its last segment: never at another depth.
pub proof fn lemma_resolve_path_depth(world: Map<Entity, NodeView>, root: Entity, segments: Seq<Seq<char>>)
    ensures
        segments.len() == 0 ==> resolve_path(world, root, segments, 0) == Some(root),
        resolve_path(world, root, segments, 0) matches Some(node) ==> reaches(
            world,
            root,
            node,
            segments.len(),
        ) && (segments.len() > 0 ==> is_named(world, node, segments.last())),
{
    lemma_resolve_path_depth_from(world, root, segments, 0);
}

/// Of siblings that share a name, the first in the child list is the one
/// that a path through that name takes, whatever follows it in the list.
pub proof fn lemma_first_match_wins(
    world: Map<Entity, NodeView>,
    root: Entity,
    name: Seq<char>,
    first: int,
    second: int,
)
    requires
        has_child_at(world, root, first),
        has_child_at(world, root, second),
        first < second,
        is_named(world, children_of(world, root)->0[first], name),
        is_named(world, children_of(world, root)->0[second], name),
        forall|j: int|
            0 <= j < first ==> !is_named(world, #[trigger] children_of(world, root)->0[j], name),
    ensures
        resolve_path(world, root, seq![name], 0) == Some(children_of(world, root)->0[first]),
{
    let children = children_of(world, root)->0;
    lemma_first_named_is_first(world, children, name, 0);
    let found = first_named(world, children, name, 0);
    if found is Some {
        let k = choose|k: int|
            0 <= k < children.len() && #[trigger] children[k] == found->0 && is_named(
                world,
                found->0,
                name,
            ) && forall|j: int| 0 <= j < k ==> !is_named(world, #[trigger] children[j], name);
        assert(k == first) by {
            if k < first {
                assert(!is_named(world, children[k], name));
            }
            if first < k {
                assert(!is_named(world, children[first], name));
            }
        }
    } else {
        assert(!is_named(world, children[first], name));
    }
    assert(resolve_path(world, found->0, seq![name], 1) == Some(found->0));
}

/// The grandchild at position `j` under the child at position `i`.
pub open spec fn grandchild_at(world: Map<Entity, NodeView>, root: Entity, i: int, j: int) -> Option<Entity> {
    if has_child_at(world, root, i) && has_child_at(world, children_of(world, root)->0[i], j) {
        Some(children_of(world, children_of(world, root)->0[i])->0[j])
    } else {
        None
    }
}

/// What the search under `children[from..]` finds carries the name and is a
/// child of one of them; `None` means no child of any of them carries it.
proof fn lemma_first_named_below(
    world: Map<Entity, NodeView>,
    children: Seq<Entity>,
    name: Seq<char>,
    from: nat,
)
    ensures
        match first_named_below(world, children, name, from) {
            Some(found) => is_named(world, found, name) && exists|i: int, j: int|
                from <= i < children.len() && has_child_at(world, children[i], j)
                    && #[trigger] children_of(world, children[i])->0[j] == found,
            None => forall|i: int, j: int|
                from <= i < children.len() && has_child_at(world, children[i], j) ==> !is_named(
                    world,
                    #[trigger] children_of(world, children[i])->0[j],
                    name,
                ),
        },
    decreases children.len() - from,
{
    if from < children.len() {
        let child = children[from as int];
        lemma_first_named_below(world, children, name, from + 1);
        match children_of(world, child) {
            Some(grandchildren) => {
                lemma_first_named_is_first(world, grandchildren, name, 0);
                if let Some(found) = first_named(world, grandchildren, name, 0) {
                    let j = choose|j: int|
                        0 <= j < grandchildren.len() && #[trigger] grandchildren[j] == found;
                    assert(has_child_at(world, children[from as int], j));
                    assert(children_of(world, children[from as int])->0[j] == found);
                }
            },
            None => {},
        }
    }
}

/// The two-level search returns only an entity that carries the name and lies
/// exactly two levels below the root. It returns `None` exactly when no
/// grandchild of the root carries the name, whatever the root itself, its
/// children or anything deeper is called.
pub proof fn lemma_resolve_grandchild_depth(world: Map<Entity, NodeView>, root: Entity, name: Seq<char>)
    ensures
        match resolve_grandchild(world, root, name) {
            Some(node) => is_named(world, node, name) && reaches(world, root, node, 2),
            None => forall|i: int, j: int|
                (#[trigger] grandchild_at(world, root, i, j)) is Some ==> !is_named(
                    world,
                    grandchild_at(world, root, i, j)->0,
                    name,
                ),
        },
{
    if let Some(children) = children_of(world, root) {
        lemma_first_named_below(world, children, name, 0);
        if let Some(found) = resolve_grandchild(world, root, name) {
            let (i, j) = choose|i: int, j: int|
                0 <= i < children.len() && has_child_at(world, children[i], j)
                    && #[trigger] children_of(world, children[i])->0[j] == found;
            assert(has_child_at(world, root, i));
            assert(reaches(world, found, found, 0));
            assert(reaches(world, children[i], found, 1));
            assert(reaches(world, root, found, 2));
        } else {
            assert forall|i: int, j: int|
                (#[trigger] grandchild_at(world, root, i, j)) is Some implies !is_named(
                world,
                grandchild_at(world, root, i, j)->0,
                name,
            ) by {
                assert(has_child_at(world, children[i], j));
            }
        }
    }
}

/// Whether the subtree of `entity` has at most `depth` levels: the entity
/// itself is one level, its children are the next. Only an entity that the
/// world does not hold has none.
pub open spec fn subtree_fits(world: Map<Entity, NodeView>, entity: Entity, depth: nat) -> bool
    decreases depth,
{
    if depth == 0 {
        !world.contains_key(entity)
    } else {
        children_of(world, entity) matches Some(children) ==> forall|k: int|
            0 <= k < children.len() ==> subtree_fits(
                world,
                #[trigger] children[k],
                (depth - 1) as nat,
            )
    }
}

/// How deep a walk may go does not matter once it may go as deep as the
/// subtree is: every walk that deep or deeper gives the same listing.
pub proof fn lemma_leaf_paths_of_fitting_subtree(
    world: Map<Entity, NodeView>,
    entity: Entity,
    prefix: Seq<Seq<char>>,
    depth: nat,
    deeper: nat,
)
    requires
        subtree_fits(world, entity, depth),
        depth <= deeper,
    ensures
        leaf_paths(world, entity, prefix, deeper) == leaf_paths(world, entity, prefix, depth),
    decreases depth, 0nat, 0nat,
{
    let path = match name_of(world, entity) {
        Some(name) => prefix.push(name),
        None => prefix,
    };
    if depth > 0 {
        if let Some(children) = children_of(world, entity) {
            if children.len() > 0 {
                lemma_leaf_paths_below_of_fitting_subtrees(
                    world,
                    children,
                    path,
                    (depth - 1) as nat,
                    (deeper - 1) as nat,
                    0,
                );
            }
        }
    }
}

/// The same, for the children of an entity from `from` on.
proof fn lemma_leaf_paths_below_of_fitting_subtrees(
    world: Map<Entity, NodeView>,
    children: Seq<Entity>,
    path: Seq<Seq<char>>,
    depth: nat,
    deeper: nat,
    from: nat,
)
    requires
        forall|k: int| 0 <= k < children.len() ==> subtree_fits(world, #[trigger] children[k], depth),
        depth <= deeper,
    ensures
        leaf_paths_below(world, children, path, deeper, from) == leaf_paths_below(
            world,
            children,
            path,
            depth,
            from,
        ),
    decreases depth, 1nat, children.len() - from,
{
    if from < children.len() {
        lemma_leaf_paths_of_fitting_subtree(world, children[from as int], path, depth, deeper);
        lemma_leaf_paths_below_of_fitting_subtrees(world, children, path, depth, deeper, from + 1);
    }
}

/// Whether `node` lies below `root`: it can be reached from it by going
/// down one level or more.
pub open spec fn lies_below(world: Map<Entity, NodeView>, root: Entity, node: Entity) -> bool {
    exists|depth: nat| depth > 0 && #[trigger] reaches(world, root, node, depth)
}

/// Whether the world is free of cycles: no entity lies below itself.
pub open spec fn acyclic(world: Map<Entity, NodeView>) -> bool {
    forall|entity: Entity| !#[trigger] lies_below(world, entity, entity)
}

/// Going down from `top` to `middle` and on to `bottom` is going down from
/// `top` to `bottom`, as many levels as both ways have together.
pub proof fn lemma_reaches_on(
    world: Map<Entity, NodeView>,
    top: Entity,
    middle: Entity,
    bottom: Entity,
    first: nat,
    second: nat,
)
    requires
        reaches(world, top, middle, first),
        reaches(world, middle, bottom, second),
    ensures
        reaches(world, top, bottom, first + second),
    decreases first,
{
    if first > 0 {
        let k = choose|k: int| #[trigger]
            has_child_at(world, top, k) && reaches(
                world,
                children_of(world, top)->0[k],
                middle,
                (first - 1) as nat,
            );
        lemma_reaches_on(
            world,
            children_of(world, top)->0[k],
            middle,
            bottom,
            (first - 1) as nat,
            second,
        );
        assert(has_child_at(world, top, k));
    }
}

/// Below a chain of `ancestors`, all different and all in the world, the
/// subtree of `entity` has at most as many levels as the world has other
/// entities.
proof fn lemma_subtree_fits_below(
    world: Map<Entity, NodeView>,
    entity: Entity,
    ancestors: Set<Entity>,
)
    requires
        world.dom().finite(),
        acyclic(world),
        ancestors.subset_of(world.dom()),
        forall|ancestor: Entity|
            ancestors.contains(ancestor) ==> #[trigger] lies_below(world, ancestor, entity),
    ensures
        ancestors.len() <= world.dom().len(),
        subtree_fits(world, entity, (world.dom().len() - ancestors.len()) as nat),
    decreases world.dom().len() - ancestors.len(),
{
    vstd::set_lib::lemma_len_subset(ancestors, world.dom());
    let depth = (world.dom().len() - ancestors.len()) as nat;
    if world.contains_key(entity) {
        assert(!ancestors.contains(entity)) by {
            if ancestors.contains(entity) {
                assert(lies_below(world, entity, entity));
            }
        }
        let longer = ancestors.insert(entity);
        assert(longer.subset_of(world.dom()));
        vstd::set_lib::lemma_len_subset(longer, world.dom());
        assert(depth > 0);
        if let Some(children) = children_of(world, entity) {
            assert forall|k: int| 0 <= k < children.len() implies subtree_fits(
                world,
                #[trigger] children[k],
                (depth - 1) as nat,
            ) by {
                let child = children[k];
                assert(has_child_at(world, entity, k));
                assert(reaches(world, child, child, 0));
                assert(reaches(world, entity, child, 1));
                assert forall|ancestor: Entity| longer.contains(ancestor) implies #[trigger] lies_below(
                    world,
                    ancestor,
                    child,
                ) by {
                    if ancestor != entity {
                        assert(lies_below(world, ancestor, entity));
                        let above = choose|above: nat|
                            above > 0 && #[trigger] reaches(world, ancestor, entity, above);
                        lemma_reaches_on(world, ancestor, entity, child, above, 1);
                        assert(reaches(world, ancestor, child, above + 1));
                    }
                }
                lemma_subtree_fits_below(world, child, longer);
            }
        }
    } else if depth > 0 {
        assert(children_of(world, entity) is None);
    }
}

/// In a world without cycles no subtree has more levels than the world has
/// entities.
pub proof fn lemma_acyclic_subtree_fits(world: Map<Entity, NodeView>, entity: Entity)
    requires
        world.dom().finite(),
        acyclic(world),
    ensures
        subtree_fits(world, entity, world.dom().len()),
{
    lemma_subtree_fits_below(world, entity, Set::empty());
}

/// In a world without cycles the listing is that of the whole subtree: a
/// walk that may go deeper than the world has entities finds the same
/// paths.
pub proof fn lemma_named_entity_paths_are_complete(
    world: Map<Entity, NodeView>,
    root: Entity,
    deeper: nat,
)
    requires
        world.dom().finite(),
        acyclic(world),
        world.dom().len() <= deeper,
    ensures
        leaf_paths(world, root, Seq::empty(), deeper) == named_entity_paths(world, root),
{
    lemma_acyclic_subtree_fits(world, root);
    lemma_leaf_paths_of_fitting_subtree(world, root, Seq::empty(), world.dom().len(), deeper);
}

/// A named entity without children is a leaf: it yields exactly one path,
/// the prefix followed by its name.
pub proof fn lemma_named_leaf_yields_its_path(
    world: Map<Entity, NodeView>,
    entity: Entity,
    prefix: Seq<Seq<char>>,
    depth: nat,
)
    requires
        depth > 0,
        name_of(world, entity) is Some,
        children_of(world, entity) matches Some(children) ==> children.len() == 0,
    ensures
        leaf_paths(world, entity, prefix, depth) == seq![prefix.push(name_of(world, entity)->0)],
{
}

/// An unnamed entity without children yields no path at all.
pub proof fn lemma_unnamed_leaf_yields_nothing(
    world: Map<Entity, NodeView>,
    entity: Entity,
    prefix: Seq<Seq<char>>,
    depth: nat,
)
    requires
        name_of(world, entity) is None,
        children_of(world, entity) matches Some(children) ==> children.len() == 0,
    ensures
        leaf_paths(world, entity, prefix, depth) == Seq::<Seq<Seq<char>>>::empty(),
{
}

/// An entity with children yields the paths of its children, in their
/// order and nothing else. A named entity puts its name between the prefix
/// and what the children add; an unnamed one hands the prefix on as it is.
pub proof fn lemma_parent_yields_paths_of_children(
    world: Map<Entity, NodeView>,
    entity: Entity,
    prefix: Seq<Seq<char>>,
    depth: nat,
)
    requires
        depth > 0,
        children_of(world, entity) matches Some(children) && children.len() > 0,
    ensures
        leaf_paths(world, entity, prefix, depth) == leaf_paths_below(
            world,
            children_of(world, entity)->0,
            match name_of(world, entity) {
                Some(name) => prefix.push(name),
                None => prefix,
            },
            (depth - 1) as nat,
            0,
        ),
{
}

/// The number of named entities without children that a walk of at most
/// `depth` levels down from `entity` meets, an entity counted once for each
/// way that leads to it.
pub open spec fn named_leaves(world: Map<Entity, NodeView>, entity: Entity, depth: nat) -> nat
    decreases depth, 0nat, 0nat,
{
    if depth == 0 {
        0
    } else {
        match children_of(world, entity) {
            Some(children) if children.len() > 0 => named_leaves_below(
                world,
                children,
                (depth - 1) as nat,
                0,
            ),
            _ => if name_of(world, entity) is Some {
                1
            } else {
                0
            },
        }
    }
}

/// The named leaves under `children[from..]`.
pub open spec fn named_leaves_below(
    world: Map<Entity, NodeView>,
    children: Seq<Entity>,
    depth: nat,
    from: nat,
) -> nat
    decreases depth, 1nat, children.len() - from,
{
    if from >= children.len() {
        0
    } else {
        named_leaves(world, children[from as int], depth) + named_leaves_below(
            world,
            children,
            depth,
            from + 1,
        )
    }
}

/// Whether every path of `paths` begins with `prefix`.
pub open spec fn all_extend(paths: Seq<Seq<Seq<char>>>, prefix: Seq<Seq<char>>) -> bool {
    forall|i: int|
        0 <= i < paths.len() ==> prefix.len() <= (#[trigger] paths[i]).len() && paths[i].subrange(
            0,
            prefix.len() as int,
        ) == prefix
}

/// The listing holds one path for each named leaf, no more and no fewer,
/// and each path begins with the prefix that the listing was given and,
/// under a named entity, goes on with that entity's name.
pub proof fn lemma_one_path_per_leaf(
    world: Map<Entity, NodeView>,
    entity: Entity,
    prefix: Seq<Seq<char>>,
    depth: nat,
)
    ensures
        leaf_paths(world, entity, prefix, depth).len() == named_leaves(world, entity, depth),
        all_extend(leaf_paths(world, entity, prefix, depth), prefix),
        name_of(world, entity) is Some ==> all_extend(
            leaf_paths(world, entity, prefix, depth),
            prefix.push(name_of(world, entity)->0),
        ),
    decreases depth, 0nat, 0nat,
{
    if depth > 0 {
        let path = match name_of(world, entity) {
            Some(name) => prefix.push(name),
            None => prefix,
        };
        assert(path.subrange(0, prefix.len() as int) =~= prefix);
        assert(path.subrange(0, path.len() as int) =~= path);
        if let Some(children) = children_of(world, entity) {
            if children.len() > 0 {
                lemma_one_path_per_leaf_below(world, children, path, (depth - 1) as nat, 0);
                let paths = leaf_paths(world, entity, prefix, depth);
                assert forall|i: int| 0 <= i < paths.len() implies prefix.len() <= (
                #[trigger] paths[i]).len() && paths[i].subrange(0, prefix.len() as int)
                    == prefix by {
                    assert(paths[i].subrange(0, path.len() as int) == path);
                    assert(paths[i].subrange(0, prefix.len() as int) =~= path.subrange(
                        0,
                        prefix.len() as int,
                    ));
                }
            }
        }
    }
}

/// The same, for the children of an entity from `from` on.
proof fn lemma_one_path_per_leaf_below(
    world: Map<Entity, NodeView>,
    children: Seq<Entity>,
    path: Seq<Seq<char>>,
    depth: nat,
    from: nat,
)
    ensures
        leaf_paths_below(world, children, path, depth, from).len() == named_leaves_below(
            world,
            children,
            depth,
            from,
        ),
        all_extend(leaf_paths_below(world, children, path, depth, from), path),
    decreases depth, 1nat, children.len() - from,
{
    if from < children.len() {
        let first = leaf_paths(world, children[from as int], path, depth);
        let rest = leaf_paths_below(world, children, path, depth, from + 1);
        lemma_one_path_per_leaf(world, children[from as int], path, depth);
        lemma_one_path_per_leaf_below(world, children, path, depth, from + 1);
        assert forall|i: int| 0 <= i < (first + rest).len() implies path.len() <= (#[trigger] (first
            + rest)[i]).len() && (first + rest)[i].subrange(0, path.len() as int) == path by {
            if i < first.len() {
                assert((first + rest)[i] == first[i]);
            } else {
                assert((first + rest)[i] == rest[i - first.len()]);
            }
        }
    }
}

/// In a world without cycles there is one listing, `named_entity_paths`.
pub proof fn lemma_listing_of_acyclic_world(
    world: Map<Entity, NodeView>,
    root: Entity,
    paths: Seq<Seq<Seq<char>>>,
)
    requires
        is_listing(world, root, paths),
        acyclic(world),
    ensures
        paths == named_entity_paths(world, root),
{
    let depth = choose|depth: nat|
        world.dom().len() <= depth && paths == #[trigger] leaf_paths(
            world,
            root,
            Seq::empty(),
            depth,
        );
    lemma_named_entity_paths_are_complete(world, root, depth);
}

/// Every listing, in a world with cycles or without, holds one path for
/// each named leaf that a walk as deep as its own meets.
pub proof fn lemma_listing_has_one_path_per_leaf(
    world: Map<Entity, NodeView>,
    root: Entity,
    paths: Seq<Seq<Seq<char>>>,
)
    requires
        is_listing(world, root, paths),
    ensures
        exists|depth: nat|
            world.dom().len() <= depth && paths.len() == #[trigger] named_leaves(
                world,
                root,
                depth,
            ),
        name_of(world, root) matches Some(name) ==> all_extend(paths, seq![name]),
{
    let depth = choose|depth: nat|
        world.dom().len() <= depth && paths == #[trigger] leaf_paths(
            world,
            root,
            Seq::empty(),
            depth,
        );
    lemma_one_path_per_leaf(world, root, Seq::empty(), depth);
    assert(paths.len() == named_leaves(world, root, depth));
    if let Some(name) = name_of(world, root) {
        assert(Seq::<Seq<char>>::empty().push(name) =~= seq![name]);
    }
}

/// The listing of an entity without children, in any world: its name when
/// it has one, and nothing when it has none.
pub proof fn lemma_listing_of_leaf(
    world: Map<Entity, NodeView>,
    root: Entity,
    paths: Seq<Seq<Seq<char>>>,
)
    requires
        is_listing(world, root, paths),
        children_of(world, root) matches Some(children) ==> children.len() == 0,
    ensures
        name_of(world, root) is None ==> paths == Seq::<Seq<Seq<char>>>::empty(),
        name_of(world, root) matches Some(name) ==> paths == seq![seq![name]],
{
    let depth = choose|depth: nat|
        world.dom().len() <= depth && paths == #[trigger] leaf_paths(
            world,
            root,
            Seq::empty(),
            depth,
        );
    if let Some(name) = name_of(world, root) {
        assert(world.contains_key(root));
        assert(world.dom().contains(root));
        assert(world.dom().len() > 0) by {
            if world.dom().len() == 0 {
                assert(world.dom() =~= Set::empty());
            }
        }
        assert(Seq::<Seq<char>>::empty().push(name) =~= seq![name]);
    }
}

/// What the listing of one child holds, the listing of all children holds.
proof fn lemma_leaf_paths_below_hold(
    world: Map<Entity, NodeView>,
    children: Seq<Entity>,
    path: Seq<Seq<char>>,
    depth: nat,
    from: nat,
    k: int,
    listed: Seq<Seq<char>>,
)
    requires
        from <= k < children.len(),
        leaf_paths(world, children[k], path, depth).contains(listed),
    ensures
        leaf_paths_below(world, children, path, depth, from).contains(listed),
    decreases k - from,
{
    let first = leaf_paths(world, children[from as int], path, depth);
    let rest = leaf_paths_below(world, children, path, depth, from + 1);
    if from == k {
        let i = choose|i: int| 0 <= i < first.len() && first[i] == listed;
        assert((first + rest)[i] == listed);
    } else {
        lemma_leaf_paths_below_hold(world, children, path, depth, from + 1, k, listed);
        let i = choose|i: int| 0 <= i < rest.len() && rest[i] == listed;
        assert((first + rest)[first.len() + i] == listed);
    }
}

/// A childless entity that the descent along `segments[from..]` reaches
/// from a named `entity` is listed below `entity`, under the name of
/// `entity` and those segments.
proof fn lemma_found_leaf_is_listed_from(
    world: Map<Entity, NodeView>,
    entity: Entity,
    segments: Seq<Seq<char>>,
    from: nat,
    node: Entity,
    prefix: Seq<Seq<char>>,
    depth: nat,
)
    requires
        from <= segments.len(),
        resolve_path(world, entity, segments, from) == Some(node),
        name_of(world, entity) is Some,
        children_of(world, node) matches Some(children) ==> children.len() == 0,
        depth > segments.len() - from,
    ensures
        leaf_paths(world, entity, prefix, depth).contains(
            prefix.push(name_of(world, entity)->0) + segments.subrange(
                from as int,
                segments.len() as int,
            ),
        ),
    decreases segments.len() - from,
{
    let path = prefix.push(name_of(world, entity)->0);
    let rest = segments.subrange(from as int, segments.len() as int);
    if from >= segments.len() {
        assert(path + rest =~= path);
        assert(seq![path][0] == path);
    } else {
        let children = children_of(world, entity)->0;
        lemma_first_named_is_first(world, children, segments[from as int], 0);
        let child = first_named(world, children, segments[from as int], 0)->0;
        let k = choose|k: int| 0 <= k < children.len() && #[trigger] children[k] == child;
        lemma_found_leaf_is_listed_from(
            world,
            child,
            segments,
            from + 1,
            node,
            path,
            (depth - 1) as nat,
        );
        assert(path.push(segments[from as int]) + segments.subrange(
            from as int + 1,
            segments.len() as int,
        ) =~= path + rest);
        lemma_leaf_paths_below_hold(world, children, path, (depth - 1) as nat, 0, k, path + rest);
    }
}

/// The search and the listing agree on leaves. A childless entity that
/// `segments` lead to from `root` is in the listing of `root`, under those
/// segments, behind the name of `root` where it has one, whenever the walk
/// may go deep enough to meet it.
pub proof fn lemma_found_leaf_is_listed(
    world: Map<Entity, NodeView>,
    root: Entity,
    segments: Seq<Seq<char>>,
    node: Entity,
    depth: nat,
)
    requires
        resolve_path(world, root, segments, 0) == Some(node),
        children_of(world, node) matches Some(children) ==> children.len() == 0,
        segments.len() > 0 || name_of(world, root) is Some,
        depth > segments.len(),
    ensures
        leaf_paths(world, root, Seq::empty(), depth).contains(
            match name_of(world, root) {
                Some(name) => seq![name] + segments,
                None => segments,
            },
        ),
{
    let empty = Seq::<Seq<char>>::empty();
    if let Some(name) = name_of(world, root) {
        lemma_found_leaf_is_listed_from(world, root, segments, 0, node, empty, depth);
        assert(empty.push(name) + segments.subrange(0, segments.len() as int) =~= seq![name]
            + segments);
    } else {
        let children = children_of(world, root)->0;
        lemma_first_named_is_first(world, children, segments[0], 0);
        let child = first_named(world, children, segments[0], 0)->0;
        let k = choose|k: int| 0 <= k < children.len() && #[trigger] children[k] == child;
        lemma_found_leaf_is_listed_from(
            world,
            child,
            segments,
            1,
            node,
            empty,
            (depth - 1) as nat,
        );
        assert(empty.push(segments[0]) + segments.subrange(1, segments.len() as int)
            =~= segments);
        lemma_leaf_paths_below_hold(world, children, empty, (depth - 1) as nat, 0, k, segments);
    }
}

/// The same in a world without cycles, where the listing is whole: every
/// leaf that a path leads to from `root` is listed under that path.
pub proof fn lemma_found_leaf_is_in_the_listing(
    world: Map<Entity, NodeView>,
    root: Entity,
    segments: Seq<Seq<char>>,
    node: Entity,
)
    requires
        world.dom().finite(),
        acyclic(world),
        resolve_path(world, root, segments, 0) == Some(node),
        children_of(world, node) matches Some(children) ==> children.len() == 0,
        segments.len() > 0 || name_of(world, root) is Some,
    ensures
        named_entity_paths(world, root).contains(
            match name_of(world, root) {
                Some(name) => seq![name] + segments,
                None => segments,
            },
        ),
{
    let depth = if world.dom().len() > segments.len() {
        world.dom().len()
    } else {
        segments.len() + 1
    };
    lemma_found_leaf_is_listed(world, root, segments, node, depth);
    lemma_named_entity_paths_are_complete(world, root, depth);
}

} // verus!
