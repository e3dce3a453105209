use bevy_descendant_collector::helpers::{collect_paths_internal, find_named_path};
use bevy_descendant_collector::{
    collect_named_entity_paths, find_named_entity, find_named_grandchild, NamedQuery,
};
use bevy_ecs::entity::Entity;
use bevy_ecs::hierarchy::Children;
use bevy_ecs::name::Name;
use bevy_ecs::world::World;

#[derive(Default)]
struct EntitySubject {
    root: Option<Entity>,
    foo1: Option<Entity>,
    foo1_bar: Option<Entity>,
    foo1_baz: Option<Entity>,
    foo1_baz2: Option<Entity>,
    foo1_unnamed: Option<Entity>,
    foo2_baz: Option<Entity>,
    foo2_baz3: Option<Entity>,
}

fn setup_entities(world: &mut World) -> EntitySubject {
    let mut entity_subject = EntitySubject::default();
    let root = world
        .spawn(())
        .with_children(|root_entity| {
            let foo1 = root_entity
                .spawn(Name::new("foo1"))
                .with_children(|foo_entity| {
                    let bar = foo_entity
                        .spawn(Name::new("bar"))
                        .with_children(|bar_entity| {
                            entity_subject.foo1_baz = Some(bar_entity.spawn(Name::new("baz")).id());
                            entity_subject.foo1_baz2 =
                                Some(bar_entity.spawn(Name::new("baz2")).id());
                            entity_subject.foo1_unnamed = Some(bar_entity.spawn(()).id());
                        })
                        .id();
                    entity_subject.foo1_bar = Some(bar);
                })
                .id();
            entity_subject.foo1 = Some(foo1);

            root_entity
                .spawn(Name::new("foo2"))
                .with_children(|foo_entity| {
                    foo_entity
                        .spawn(Name::new("bar"))
                        .with_children(|bar_entity| {
                            entity_subject.foo2_baz = Some(bar_entity.spawn(Name::new("baz")).id());
                            bar_entity.spawn(Name::new("baz2"));
                            entity_subject.foo2_baz3 =
                                Some(bar_entity.spawn(Name::new("baz3")).id());
                        });
                });
        })
        .id();

    entity_subject.root = Some(root);
    entity_subject
}

fn with_query<R>(world: &mut World, run: impl FnOnce(&NamedQuery) -> R) -> R {
    let mut state = world.query::<(Entity, Option<&Name>, Option<&Children>)>();
    let query = state.query(world);
    run(&NamedQuery { query: &query })
}

fn leaf(world: &mut World, name: &str) -> Entity {
    world.spawn(Name::new(name.to_string())).id()
}

fn parent(world: &mut World, name: Option<&str>, children: &[Entity]) -> Entity {
    let mut entity = match name {
        Some(name) => world.spawn(Name::new(name.to_string())),
        None => world.spawn(()),
    };
    entity.add_children(children);
    entity.id()
}

fn strings(path: &[&str]) -> Vec<String> {
    path.iter().map(|s| s.to_string()).collect()
}

fn no_paths() -> Vec<Vec<String>> {
    Vec::new()
}

#[test]
fn test_find_named_entity() {
    let mut world = World::new();
    let entity_subject = setup_entities(&mut world);
    let root_entity = entity_subject.root.expect("root should be defined");

    let my_baz =
        with_query(&mut world, |q| find_named_entity(root_entity, q, &["foo2", "bar", "baz"]));

    assert!(my_baz.is_some());

    let my_baz_name = world.get::<Name>(my_baz.expect("should be found"));

    assert_eq!(my_baz_name.expect("baz should have a name").to_string(), "baz");
    assert_eq!(my_baz, entity_subject.foo2_baz);
}

#[test]
fn test_collect_named_descendants() {
    let mut world = World::new();
    let entity_subject = setup_entities(&mut world);
    let root_entity = entity_subject.root.expect("root should be defined");

    let named_entity_paths =
        with_query(&mut world, |q| collect_named_entity_paths(root_entity, q));

    assert_eq!(
        named_entity_paths,
        vec![
            vec!["foo1", "bar", "baz"],
            vec!["foo1", "bar", "baz2"],
            vec!["foo2", "bar", "baz"],
            vec!["foo2", "bar", "baz2"],
            vec!["foo2", "bar", "baz3"]
        ]
    );
}

#[test]
fn resolves_a_path_in_the_first_branch() {
    let mut world = World::new();
    let subject = setup_entities(&mut world);
    let root = subject.root.expect("root");
    with_query(&mut world, |q| {
        assert_eq!(find_named_entity(root, q, &["foo1", "bar", "baz"]), subject.foo1_baz);
        assert_eq!(find_named_entity(root, q, &["foo1", "bar", "baz2"]), subject.foo1_baz2);
    });
}

#[test]
fn a_single_branch_resolves_to_its_leaf() {
    let mut world = World::new();
    let baz = leaf(&mut world, "baz");
    let baz2 = leaf(&mut world, "baz2");
    let unnamed = world.spawn(()).id();
    let bar = parent(&mut world, Some("bar"), &[baz, baz2, unnamed]);
    let foo1 = parent(&mut world, Some("foo1"), &[bar]);
    let root = parent(&mut world, None, &[foo1]);
    with_query(&mut world, |q| {
        assert_eq!(find_named_entity(root, q, &["foo1", "bar", "baz"]), Some(baz));
        assert_eq!(find_named_entity(root, q, &["foo1", "bar", "qux"]), None);
        assert_eq!(
            collect_named_entity_paths(root, q),
            vec![vec!["foo1", "bar", "baz"], vec!["foo1", "bar", "baz2"]]
        );
    });
}

#[test]
fn a_missing_segment_gives_none() {
    let mut world = World::new();
    let subject = setup_entities(&mut world);
    let root = subject.root.expect("root");
    with_query(&mut world, |q| {
        assert_eq!(find_named_entity(root, q, &["foo1", "bar", "qux"]), None);
        assert_eq!(find_named_entity(root, q, &["qux"]), None);
        assert_eq!(find_named_entity(root, q, &["foo1", "baz"]), None);
    });
}

#[test]
fn an_empty_path_is_the_root_itself() {
    let mut world = World::new();
    let subject = setup_entities(&mut world);
    let root = subject.root.expect("root");
    let gone = world.spawn(Name::new("gone")).id();
    world.despawn(gone);
    with_query(&mut world, |q| {
        assert_eq!(find_named_entity(root, q, &[]), Some(root));
        assert_eq!(find_named_entity(subject.foo1_baz.unwrap(), q, &[]), subject.foo1_baz);
        // The root is not looked up: an entity that is gone comes back as it is.
        assert_eq!(find_named_entity(gone, q, &[]), Some(gone));
        assert_eq!(find_named_entity(gone, q, &["foo1"]), None);
    });
}

#[test]
fn a_path_ends_at_its_own_depth() {
    let mut world = World::new();
    let subject = setup_entities(&mut world);
    let root = subject.root.expect("root");
    with_query(&mut world, |q| {
        // "bar" lies two levels below the root, not one.
        assert_eq!(find_named_entity(root, q, &["bar"]), None);
        assert_eq!(find_named_entity(root, q, &["foo1", "bar"]), subject.foo1_bar);
        // A path that goes on below a leaf fails.
        assert_eq!(find_named_entity(root, q, &["foo1", "bar", "baz", "baz"]), None);
    });
}

#[test]
fn names_are_compared_exactly() {
    let mut world = World::new();
    let subject = setup_entities(&mut world);
    let root = subject.root.expect("root");
    with_query(&mut world, |q| {
        assert_eq!(find_named_entity(root, q, &["Foo1"]), None);
        assert_eq!(find_named_entity(root, q, &["foo"]), None);
        assert_eq!(find_named_entity(root, q, &["foo1 "]), None);
        assert_eq!(find_named_entity(root, q, &["foo1"]), subject.foo1);
    });
}

#[test]
fn the_first_of_two_siblings_with_one_name_wins() {
    let mut world = World::new();
    let under_first = leaf(&mut world, "x");
    let first = parent(&mut world, Some("twin"), &[under_first]);
    let under_second = leaf(&mut world, "y");
    let second = parent(&mut world, Some("twin"), &[under_second]);
    let other = leaf(&mut world, "other");
    let root = parent(&mut world, None, &[other, first, second]);
    with_query(&mut world, |q| {
        for _ in 0..3 {
            assert_eq!(find_named_entity(root, q, &["twin"]), Some(first));
        }
        assert_eq!(find_named_entity(root, q, &["twin", "x"]), Some(under_first));
        // "y" hangs under the second twin only; the search does not go back for it.
        assert_eq!(find_named_entity(root, q, &["twin", "y"]), None);
        assert_ne!(find_named_entity(root, q, &["twin"]), Some(second));
    });
}

#[test]
fn find_named_path_takes_owned_names() {
    let mut world = World::new();
    let subject = setup_entities(&mut world);
    let root = subject.root.expect("root");
    with_query(&mut world, |q| {
        assert_eq!(find_named_path(root, q, &strings(&["foo2", "bar", "baz3"])), subject.foo2_baz3);
        assert_eq!(find_named_path(root, q, &strings(&[])), Some(root));
    });
}

#[test]
fn grandchild_search_looks_two_levels_down_only() {
    let mut world = World::new();
    let subject = setup_entities(&mut world);
    let root = subject.root.expect("root");
    let gone = world.spawn(()).id();
    world.despawn(gone);
    with_query(&mut world, |q| {
        // depth 2
        assert_eq!(find_named_grandchild(root, q, "bar"), subject.foo1_bar);
        // depth 1
        assert_eq!(find_named_grandchild(root, q, "foo1"), None);
        assert_eq!(find_named_grandchild(root, q, "foo2"), None);
        // depth 3
        assert_eq!(find_named_grandchild(root, q, "baz"), None);
        assert_eq!(find_named_grandchild(root, q, "baz3"), None);
        // from one level further down, the leaves are grandchildren
        assert_eq!(find_named_grandchild(subject.foo1.unwrap(), q, "baz2"), subject.foo1_baz2);
        // nothing below a leaf, nothing below an entity that is gone
        assert_eq!(find_named_grandchild(subject.foo1_baz.unwrap(), q, "baz"), None);
        assert_eq!(find_named_grandchild(gone, q, "bar"), None);
    });
}

#[test]
fn grandchild_search_takes_the_first_in_order() {
    let mut world = World::new();
    let a_other = leaf(&mut world, "other");
    let a_hit = leaf(&mut world, "hit");
    let a = parent(&mut world, None, &[a_other, a_hit]);
    let b_hit = leaf(&mut world, "hit");
    let b = parent(&mut world, Some("hit"), &[b_hit]);
    let childless = leaf(&mut world, "hit");
    let root = parent(&mut world, Some("hit"), &[childless, a, b]);
    with_query(&mut world, |q| {
        assert_eq!(find_named_grandchild(root, q, "hit"), Some(a_hit));
        assert_eq!(find_named_grandchild(root, q, "other"), Some(a_other));
        assert_eq!(find_named_grandchild(root, q, "none"), None);
    });
}

#[test]
fn leaf_paths_skip_the_unnamed_leaf() {
    let mut world = World::new();
    let subject = setup_entities(&mut world);
    with_query(&mut world, |q| {
        assert_eq!(
            collect_named_entity_paths(subject.foo1_bar.unwrap(), q),
            vec![vec!["bar", "baz"], vec!["bar", "baz2"]]
        );
        assert_eq!(collect_named_entity_paths(subject.foo1_unnamed.unwrap(), q), no_paths());
    });
}

#[test]
fn leaf_paths_of_a_named_leaf_is_its_name() {
    let mut world = World::new();
    let subject = setup_entities(&mut world);
    with_query(&mut world, |q| {
        assert_eq!(collect_named_entity_paths(subject.foo1_baz.unwrap(), q), vec![vec!["baz"]]);
    });
}

#[test]
fn leaf_paths_of_a_missing_entity_are_empty() {
    let mut world = World::new();
    let gone = world.spawn(Name::new("gone")).id();
    world.despawn(gone);
    with_query(&mut world, |q| {
        assert_eq!(collect_named_entity_paths(gone, q), no_paths());
    });
    let subject = setup_entities(&mut world);
    with_query(&mut world, |q| {
        assert_eq!(collect_named_entity_paths(gone, q), no_paths());
        assert_eq!(collect_named_entity_paths(subject.root.unwrap(), q).len(), 5);
    });
}

#[test]
fn an_empty_child_list_ends_a_path() {
    let mut world = World::new();
    let named = world.spawn((Name::new("empty"), Children::default())).id();
    let unnamed = world.spawn(Children::default()).id();
    let root = parent(&mut world, Some("root"), &[named, unnamed]);
    with_query(&mut world, |q| {
        assert_eq!(collect_named_entity_paths(root, q), vec![vec!["root", "empty"]]);
        assert_eq!(collect_named_entity_paths(named, q), vec![vec!["empty"]]);
        assert_eq!(collect_named_entity_paths(unnamed, q), no_paths());
        // An empty list holds no child to descend to.
        assert_eq!(find_named_entity(named, q, &["empty"]), None);
    });
}

#[test]
fn an_unnamed_parent_hands_the_prefix_on() {
    let mut world = World::new();
    let a = leaf(&mut world, "a");
    let b = leaf(&mut world, "b");
    let wrapper = parent(&mut world, None, &[a, b]);
    let c = leaf(&mut world, "c");
    let top = parent(&mut world, Some("top"), &[wrapper, c]);
    with_query(&mut world, |q| {
        assert_eq!(
            collect_named_entity_paths(top, q),
            vec![vec!["top", "a"], vec!["top", "b"], vec!["top", "c"]]
        );
        assert_eq!(collect_named_entity_paths(wrapper, q), vec![vec!["a"], vec!["b"]]);
    });
}

#[test]
fn a_named_parent_of_unnamed_leaves_has_no_path() {
    let mut world = World::new();
    let x = world.spawn(()).id();
    let y = world.spawn(()).id();
    let top = parent(&mut world, Some("top"), &[x, y]);
    with_query(&mut world, |q| {
        assert_eq!(collect_named_entity_paths(top, q), no_paths());
    });
}

#[test]
fn a_deep_chain_is_listed_to_its_end() {
    let mut world = World::new();
    let mut below = leaf(&mut world, "n0");
    let mut expected = vec!["n0".to_string()];
    for level in 1..40 {
        let name = format!("n{}", level);
        below = parent(&mut world, Some(&name), &[below]);
        expected.insert(0, name);
    }
    with_query(&mut world, |q| {
        assert_eq!(collect_named_entity_paths(below, q), vec![expected]);
    });
}

#[test]
fn a_listing_ends_where_children_lead_back() {
    let mut world = World::new();
    let c = leaf(&mut world, "c");
    let b = parent(&mut world, Some("b"), &[c]);
    let a = parent(&mut world, Some("a"), &[b]);
    // "a" becomes a child of its own child.
    world.entity_mut(b).add_child(a);
    with_query(&mut world, |q| {
        // Three entities make three levels: a, b, and below b the leaf and,
        // once more, a, whose children lie too deep by then.
        assert_eq!(collect_named_entity_paths(a, q), vec![vec!["a", "b", "c"]]);
        assert_eq!(find_named_entity(a, q, &["b", "a", "b", "c"]), Some(c));
    });
}

#[test]
fn the_walk_appends_nothing_for_an_unnamed_childless_entity() {
    let mut world = World::new();
    let bare = world.spawn(()).id();
    let empty = world.spawn(Children::default()).id();
    with_query(&mut world, |q| {
        let before = vec![strings(&["kept"])];
        let mut paths = before.clone();
        collect_paths_internal(bare, &strings(&["a", "b"]), q, 5, &mut paths);
        collect_paths_internal(empty, &strings(&["a", "b"]), q, 5, &mut paths);
        assert_eq!(paths, before);
        assert_eq!(collect_named_entity_paths(bare, q), no_paths());
        assert_eq!(collect_named_entity_paths(empty, q), no_paths());
    });
}

#[test]
fn the_walk_goes_as_deep_as_it_is_told() {
    let mut world = World::new();
    let subject = setup_entities(&mut world);
    let root = subject.root.expect("root");
    with_query(&mut world, |q| {
        let walk = |depth: usize| {
            let mut paths = vec![strings(&["kept"])];
            collect_paths_internal(root, &strings(&["top"]), q, depth, &mut paths);
            paths
        };
        // The leaves lie four levels down, the root counted.
        for depth in 0..4 {
            assert_eq!(walk(depth), vec![strings(&["kept"])]);
        }
        let whole = vec![
            strings(&["kept"]),
            strings(&["top", "foo1", "bar", "baz"]),
            strings(&["top", "foo1", "bar", "baz2"]),
            strings(&["top", "foo2", "bar", "baz"]),
            strings(&["top", "foo2", "bar", "baz2"]),
            strings(&["top", "foo2", "bar", "baz3"]),
        ];
        assert_eq!(walk(4), whole);
        assert_eq!(walk(400), whole);
    });
}

#[test]
fn a_leaf_that_a_path_leads_to_is_listed_under_that_path() {
    let mut world = World::new();
    let subject = setup_entities(&mut world);
    let root = subject.root.expect("root");
    with_query(&mut world, |q| {
        let listing = collect_named_entity_paths(root, q);
        for path in [["foo1", "bar", "baz"], ["foo2", "bar", "baz3"]] {
            assert!(find_named_entity(root, q, &path).is_some());
            assert!(listing.contains(&strings(&path)));
        }
        // From a named root the listing puts the root's name first.
        let foo1 = subject.foo1.unwrap();
        assert_eq!(find_named_entity(foo1, q, &["bar", "baz2"]), subject.foo1_baz2);
        assert!(collect_named_entity_paths(foo1, q).contains(&strings(&["foo1", "bar", "baz2"])));
    });
}
