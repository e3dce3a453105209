use bevy_descendant_collector::{collect_named_entity_paths, find_named_entity, NamedQuery};
use bevy_ecs::entity::Entity;
use bevy_ecs::hierarchy::Children;
use bevy_ecs::name::Name;
use bevy_ecs::world::World;

fn with_query<R>(world: &mut World, run: impl FnOnce(&NamedQuery) -> R) -> R {
    let mut state = world.query::<(Entity, Option<&Name>, Option<&Children>)>();
    let query = state.query(world);
    run(&NamedQuery { query: &query })
}

#[test]
fn name_and_children_of_an_entity() {
    let mut world = World::new();
    let a = world.spawn(Name::new("a")).id();
    let b = world.spawn(Name::new("b")).id();
    let unnamed = world.spawn(()).add_children(&[b, a]).id();
    let empty = world.spawn((Name::new("empty"), Children::default())).id();
    let gone = world.spawn(Name::new("gone")).add_child(empty).id();
    world.despawn(gone);
    with_query(&mut world, |q| {
        assert_eq!(q.name(a), Some("a"));
        assert_eq!(q.name(b), Some("b"));
        assert_eq!(q.name(unnamed), None);
        assert_eq!(q.children(a), None);
        // Children come in the order in which they were added.
        assert_eq!(q.children(unnamed), Some(&[b, a][..]));
        assert_eq!(q.name(gone), None);
        assert_eq!(q.children(gone), None);
    });
}

#[test]
fn an_empty_child_list_is_not_a_missing_one() {
    let mut world = World::new();
    let empty = world.spawn((Name::new("empty"), Children::default())).id();
    let bare = world.spawn(Name::new("bare")).id();
    with_query(&mut world, |q| {
        assert_eq!(q.children(empty), Some(&[][..]));
        assert_eq!(q.children(bare), None);
        assert_eq!(q.name(empty), Some("empty"));
    });
}

#[test]
fn a_query_made_before_the_entities_knows_none_of_them() {
    let mut world = World::new();
    let mut state = world.query::<(Entity, Option<&Name>, Option<&Children>)>();
    let leaf = world.spawn(Name::new("leaf")).id();
    let root = world.spawn(Name::new("root")).add_child(leaf).id();

    // The state has not looked at the world since the entities came.
    let query = state.query_manual(&world);
    let stale = NamedQuery { query: &query };
    assert_eq!(stale.name(root), None);
    assert_eq!(stale.children(root), None);
    assert_eq!(find_named_entity(root, &stale, &["leaf"]), None);
    assert_eq!(find_named_entity(root, &stale, &[]), Some(root));
    assert_eq!(collect_named_entity_paths(root, &stale), Vec::<Vec<String>>::new());

    // Once it has, it knows them.
    with_query(&mut world, |q| {
        assert_eq!(q.name(root), Some("root"));
        assert_eq!(find_named_entity(root, q, &["leaf"]), Some(leaf));
        assert_eq!(collect_named_entity_paths(root, q), vec![vec!["root", "leaf"]]);
    });
}
