use bevy_descendant_collector::{
    insert_armature_after_load, ArmatureLoader, ArmatureLoaderPlugin, ArmatureTarget,
    DescendantRootPosition, HierarchyRootPosition, NamedQuery, RootNotFound,
};
use bevy_ecs::entity::Entity;
use bevy_ecs::hierarchy::Children;
use bevy_ecs::name::Name;
use bevy_ecs::world::World;

#[test]
fn test_armature_loader() {}

struct Turret {
    world: World,
    scene: Entity,
    armature: Entity,
    bone: Entity,
    neck: Entity,
}

fn turret() -> Turret {
    let mut world = World::new();
    let neck = world.spawn(Name::new("Bone.Neck")).id();
    let bone = world.spawn(Name::new("Bone")).add_child(neck).id();
    let armature = world.spawn(Name::new("Armature")).add_child(bone).id();
    let wrapper = world.spawn(()).add_child(armature).id();
    let scene = world.spawn(()).add_child(wrapper).id();
    Turret { world, scene, armature, bone, neck }
}

fn with_query<R>(world: &mut World, run: impl FnOnce(&NamedQuery) -> R) -> R {
    let mut state = world.query::<(Entity, Option<&Name>, Option<&Children>)>();
    let query = state.query(world);
    run(&NamedQuery { query: &query })
}

fn my_turret_armature() -> ArmatureLoader {
    ArmatureLoader::new(
        "Armature".to_string(),
        vec![
            vec![],
            vec!["Bone".to_string()],
            vec!["Bone".to_string(), "Bone.Neck".to_string()],
        ],
    )
}

#[test]
fn an_armature_is_inserted_below_a_scene() {
    let mut t = turret();
    let plugin = ArmatureLoaderPlugin::new(DescendantRootPosition::default(), my_turret_armature());
    let mut scenes_added = vec![ArmatureTarget::new(t.scene)];
    let outcome =
        with_query(&mut t.world, |q| insert_armature_after_load(&plugin, &mut scenes_added, q));
    assert_eq!(outcome, Ok(()));
    assert_eq!(scenes_added[0].descendants(), Some(&vec![t.armature, t.bone, t.neck]));
    let after_first = scenes_added.clone();
    let outcome =
        with_query(&mut t.world, |q| insert_armature_after_load(&plugin, &mut scenes_added, q));
    assert_eq!(outcome, Ok(()));
    assert_eq!(scenes_added, after_first);
}

#[test]
fn an_armature_without_its_root_stops_the_pass() {
    let mut t = turret();
    let plugin = ArmatureLoaderPlugin::new(DescendantRootPosition::Scene, my_turret_armature());
    let mut scenes_added = vec![ArmatureTarget::new(t.armature)];
    let before = scenes_added.clone();
    let outcome =
        with_query(&mut t.world, |q| insert_armature_after_load(&plugin, &mut scenes_added, q));
    assert_eq!(
        outcome,
        Err(RootNotFound {
            entity_map_target: t.armature,
            root_entity_name: "Armature".to_string()
        })
    );
    assert_eq!(scenes_added, before);
}

#[test]
fn armature_positions_are_collector_positions() {
    let t = turret();
    assert_eq!(DescendantRootPosition::default(), DescendantRootPosition::Scene);
    assert_eq!(DescendantRootPosition::Scene.to_hierarchy_position(), HierarchyRootPosition::Scene);
    assert_eq!(
        DescendantRootPosition::Direct.to_hierarchy_position(),
        HierarchyRootPosition::Direct
    );
    assert_eq!(
        DescendantRootPosition::Fixed(t.bone).to_hierarchy_position(),
        HierarchyRootPosition::Fixed(t.bone)
    );
}

#[test]
fn direct_and_fixed_armatures() {
    let mut t = turret();
    let plugin = ArmatureLoaderPlugin::new(DescendantRootPosition::Direct, my_turret_armature());
    let mut scenes_added = vec![ArmatureTarget::new(t.armature)];
    let outcome =
        with_query(&mut t.world, |q| insert_armature_after_load(&plugin, &mut scenes_added, q));
    assert_eq!(outcome, Ok(()));
    assert_eq!(scenes_added[0].descendants(), Some(&vec![t.armature, t.bone, t.neck]));

    let plugin =
        ArmatureLoaderPlugin::new(DescendantRootPosition::Fixed(t.armature), my_turret_armature());
    let mut scenes_added = vec![ArmatureTarget::new(t.scene)];
    let outcome =
        with_query(&mut t.world, |q| insert_armature_after_load(&plugin, &mut scenes_added, q));
    assert_eq!(outcome, Ok(()));
    assert_eq!(scenes_added[0].descendants(), Some(&vec![t.armature, t.bone, t.neck]));
}
