//! The world as the collector reads it: entities that may carry a name and
//! may carry an ordered list of children.
//!
//! This is where the collector meets `bevy_ecs`. What is declared here
//! about the query and about entities is taken from the source of that
//! crate and is believed, not proved; everything else in the crate is proved
//! from it.

use bevy_ecs::entity::Entity;
use bevy_ecs::hierarchy::Children;
use bevy_ecs::name::Name;
use bevy_ecs::system::Query;
use vstd::prelude::*;

verus! {

/// `bevy_ecs::entity::Entity`, the handle of an entity. The collector hands
/// entities on and never looks into one.
#[verifier::external_type_specification]
#[verifier::external_body]
pub struct ExEntity(Entity);

/// `Clone::clone` of `Entity`, which is `Copy`: the clone is the entity.
pub assume_specification[ <Entity as Clone>::clone ](entity: &Entity) -> (copy: Entity)
    ensures
        copy == *entity,
;

/// What an entity looks like to specifications: its name, if it has one,
/// and its children in their order, if it has a child list at all. An
/// entity without a child list and one with an empty list are different
/// things.
pub struct NodeView {
    pub name: Option<Seq<char>>,
    pub children: Option<Seq<Entity>>,
}

/// A borrowed `bevy_ecs::system::Query` over every entity with its optional
/// `Name` and its optional `Children`. The verifier cannot take the query
/// itself, so it is held here, opaque, and read through `get` and
/// `entity_count`. A caller puts its query into the field.
#[verifier::external_body]
pub struct NamedQuery<'w, 's, 'q> {
    pub query: &'q Query<'w, 's, (Entity, Option<&'static Name>, Option<&'static Children>)>,
}

/// The entities that the query knows, each with its name and children.
pub uninterp spec fn nodes(named_query: NamedQuery) -> Map<Entity, NodeView>;

/// The name of `entity` in `world`, if it is there and has one.
pub open spec fn name_of(world: Map<Entity, NodeView>, entity: Entity) -> Option<Seq<char>> {
    if world.contains_key(entity) {
        world[entity].name
    } else {
        None
    }
}

/// The child list of `entity` in `world`, if it is there and has one.
pub open spec fn children_of(world: Map<Entity, NodeView>, entity: Entity) -> Option<Seq<Entity>> {
    if world.contains_key(entity) {
        world[entity].children
    } else {
        None
    }
}

/// A name and a child list, as borrowed from the world, seen as a node.
pub open spec fn borrowed_node(name: Option<&str>, children: Option<&[Entity]>) -> NodeView {
    NodeView {
        name: match name {
            Some(text) => Some(text@),
            None => None,
        },
        children: match children {
            Some(list) => Some(list@),
            None => None,
        },
    }
}

/// Whether `world` holds finitely many entities and no more than `count`.
pub open spec fn holds_at_most(world: Map<Entity, NodeView>, count: nat) -> bool {
    world.dom().finite() && world.dom().len() <= count
}

impl<'w, 's, 'q> NamedQuery<'w, 's, 'q> {
    /// `Query::get`, with `Name::as_str` for the name and the slice that
    /// `Children` dereferences to for the children: what the query holds
    /// for `entity`, or `None` for an entity that it does not know.
    #[verifier::external_body]
    pub(crate) fn get(&self, entity: Entity) -> (node: Option<
        (Option<&'q str>, Option<&'q [Entity]>),
    >)
        ensures
            match node {
                Some((name, children)) => nodes(*self).contains_key(entity) && nodes(
                    *self,
                )[entity] == borrowed_node(name, children),
                None => !nodes(*self).contains_key(entity),
            },
    {
        match self.query.get(entity) {
            Ok((_, name, children)) => Some(
                (
                    match name {
                        Some(name) => Some(name.as_str()),
                        None => None,
                    },
                    match children {
                        Some(children) => Some(&children[..]),
                        None => None,
                    },
                ),
            ),
            Err(_) => None,
        }
    }

    /// `Query::iter`, counted. The query yields each entity of the tables
    /// that it matches once, and `Query::get` knows no entity outside
    /// those tables: the world holds finitely many entities and no more
    /// than are counted. It may hold fewer, where the query was made
    /// without a look at the newest archetypes of the world.
    #[verifier::external_body]
    pub(crate) fn entity_count(&self) -> (count: usize)
        ensures
            holds_at_most(nodes(*self), count as nat),
    {
        self.query.iter().count()
    }

    /// The name of `entity`: `None` for an entity without one and for one
    /// that the query does not know.
    pub fn name(&self, entity: Entity) -> (name: Option<&'q str>)
        ensures
            name_of(nodes(*self), entity) == match name {
                Some(text) => Some(text@),
                None => None,
            },
    {
        match self.get(entity) {
            Some((name, _)) => name,
            None => None,
        }
    }

    /// The children of `entity` in their order: `None` for an entity
    /// without a child list and for one that the query does not know.
    pub fn children(&self, entity: Entity) -> (children: Option<&'q [Entity]>)
        ensures
            children_of(nodes(*self), entity) == match children {
                Some(list) => Some(list@),
                None => None,
            },
    {
        match self.get(entity) {
            Some((_, children)) => children,
            None => None,
        }
    }
}

} // verus!
