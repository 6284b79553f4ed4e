use evenio::archetype::Archetypes;
use evenio::bit_set::BitSet;
use evenio::bool_expr::BoolExpr;
use evenio::component::ComponentId;
use evenio::entity::{Entities, EntityLocation};
use evenio::query::compile;
use evenio::event::{ActiveSystems, EventStack, Footprint, Systems};
use evenio::world::World;

fn loc(archetype: u32, row: u32) -> EntityLocation {
    EntityLocation { archetype, row }
}

#[test]
fn despawn_then_reuse_gives_newer_generation() {
    let mut entities = Entities::new();
    let e = entities.spawn(loc(0, 0));
    let other = entities.spawn(loc(0, 1));
    assert_eq!(entities.get(e), Some(loc(0, 0)));
    assert_eq!(entities.despawn(e), Some(loc(0, 0)));
    assert_eq!(entities.despawn(e), None);
    assert_eq!(entities.get(e), None);
    let reused = entities.spawn(loc(1, 0));
    assert_eq!(reused.index, e.index);
    assert!(reused.generation > e.generation);
    assert_eq!(entities.get(e), None);
    assert!(!entities.set_location(e, loc(2, 2)));
    assert!(entities.set_location(reused, loc(2, 2)));
    assert_eq!(entities.get(reused), Some(loc(2, 2)));
    assert_eq!(entities.get(other), Some(loc(0, 1)));
    let fresh = entities.spawn(loc(0, 2));
    assert_eq!(fresh.index, 2);
    assert_eq!(fresh.generation, 0);
}

#[test]
fn adding_present_component_is_a_no_op() {
    let mut archetypes = Archetypes::new();
    let a = ComponentId::from_bits(3);
    let b = ComponentId::from_bits(1);
    let with_a = archetypes.add_component(0, a);
    assert_eq!(with_a, 1);
    assert_eq!(archetypes.add_component(with_a, a), with_a);
    assert_eq!(archetypes.len(), 2);
    let with_ab = archetypes.add_component(with_a, b);
    let with_b = archetypes.add_component(0, b);
    let with_ba = archetypes.add_component(with_b, a);
    assert_eq!(with_ab, with_ba);
    assert_eq!(archetypes.len(), 4);
    assert_eq!(archetypes.remove_component(with_b, a), with_b);
    assert_eq!(archetypes.remove_component(with_ab, b), with_a);
    assert_eq!(archetypes.remove_component(with_b, b), 0);
    assert_eq!(archetypes.len(), 4);
    assert!(archetypes.has_component(with_ab, a));
    assert!(!archetypes.has_component(with_a, b));
}

const A: u32 = 0;
const B1: u32 = 1;
const B2: u32 = 2;
const C1: u32 = 3;
const C2: u32 = 4;
const C3: u32 = 5;
const C4: u32 = 6;

#[test]
fn dispatch_is_depth_first() {
    let mut stack = EventStack::new();
    let mut log = Vec::new();
    stack.push_sent(&vec![A]);
    while let Some(event) = stack.next() {
        log.push(event);
        let sent = match event {
            A => vec![B1, B2],
            B1 => vec![C1, C2],
            B2 => vec![C3, C4],
            _ => vec![],
        };
        stack.push_sent(&sent);
    }
    assert_eq!(log, vec![A, B1, C1, C2, B2, C3, C4]);
    assert!(stack.is_empty());
}

fn footprint(reads: &[usize], writes: &[usize]) -> Footprint {
    let mut f = Footprint { reads: BitSet::new(), writes: BitSet::new() };
    for &r in reads {
        f.reads.insert(r);
    }
    for &w in writes {
        f.writes.insert(w);
    }
    f
}

#[test]
fn conflicting_footprints_are_refused() {
    assert!(footprint(&[1], &[]).conflicts_with(&footprint(&[], &[1])));
    assert!(footprint(&[], &[2]).conflicts_with(&footprint(&[], &[2])));
    assert!(!footprint(&[1], &[]).conflicts_with(&footprint(&[1], &[])));
    assert!(!footprint(&[1], &[2]).conflicts_with(&footprint(&[3], &[4])));

    let mut active = ActiveSystems::new();
    assert!(active.enter(footprint(&[1], &[2])));
    assert!(active.enter(footprint(&[1], &[3])));
    assert!(!active.enter(footprint(&[2], &[])));
    active.leave();
    assert!(!active.enter(footprint(&[], &[1])));
    active.leave();
    assert!(active.enter(footprint(&[3], &[])));
}

#[test]
fn world_structural_changes_keep_directory_in_step() {
    let mut world = World::new();
    let a = ComponentId::from_bits(0);
    let b = ComponentId::from_bits(1);
    let e1 = world.spawn();
    let e2 = world.spawn();
    let e3 = world.spawn();
    assert!(world.insert_component(e1, a));
    assert!(world.insert_component(e2, a));
    assert!(world.insert_component(e2, b));
    assert!(world.insert_component(e1, a));
    assert!(world.has_component(e1, a));
    assert!(!world.has_component(e1, b));
    assert!(world.has_component(e2, a) && world.has_component(e2, b));
    assert!(!world.has_component(e3, a));
    assert!(world.remove_component(e2, a));
    assert!(!world.has_component(e2, a));
    assert!(world.has_component(e2, b));
    assert!(world.remove_component(e3, b));
    assert!(world.despawn(e1));
    assert!(!world.despawn(e1));
    assert!(!world.contains(e1));
    assert!(!world.insert_component(e1, b));
    assert!(!world.remove_component(e1, a));
    assert!(!world.has_component(e1, a));
    let e4 = world.spawn();
    assert_eq!(e4.index, e1.index);
    assert!(e4.generation > e1.generation);
    assert!(!world.has_component(e4, a));
    assert!(world.contains(e2) && world.contains(e3) && world.contains(e4));
}

#[test]
fn handlers_run_in_registration_order() {
    let mut systems = Systems::new();
    let h1 = systems.add_system(7);
    let h2 = systems.add_system(8);
    let h3 = systems.add_system(7);
    assert_eq!((h1, h2, h3), (0, 1, 2));
    assert_eq!(systems.handlers_for(7), vec![h1, h3]);
    assert_eq!(systems.handlers_for(8), vec![h2]);
    assert!(systems.handlers_for(9).is_empty());
    assert!(systems.remove_system(h1));
    assert!(!systems.remove_system(h1));
    assert_eq!(systems.handlers_for(7), vec![h3]);
    assert_eq!(systems.add_system(7), 3);
    assert_eq!(systems.handlers_for(7), vec![h3, 3]);
}

#[test]
fn archetypes_match_compiled_filters() {
    let mut archetypes = Archetypes::new();
    let a = ComponentId::from_bits(2);
    let b = ComponentId::from_bits(70);
    let with_a = archetypes.add_component(0, a);
    let with_ab = archetypes.add_component(with_a, b);
    let has_a_not_b = BoolExpr::with(a).and(&BoolExpr::without(b));
    assert!(archetypes.matches(with_a, &has_a_not_b));
    assert!(!archetypes.matches(with_ab, &has_a_not_b));
    assert!(!archetypes.matches(0, &has_a_not_b));
    let a_xor_b = BoolExpr::with(a).xor(&BoolExpr::with(b));
    assert!(archetypes.matches(with_a, &a_xor_b));
    assert!(!archetypes.matches(with_ab, &a_xor_b));
    assert!(archetypes.matches(0, &BoolExpr::one()));
    assert!(!archetypes.matches(with_ab, &BoolExpr::zero()));
}

#[test]
fn eval_against_presence_set() {
    let mut present = BitSet::new();
    present.insert(1);
    let expr = BoolExpr::with(1u32).and(&BoolExpr::without(0u32));
    assert!(expr.eval_set(&present));
    present.insert(0);
    assert!(!expr.eval_set(&present));
    assert!(expr.not().eval_set(&present));
}

#[test]
fn query_access_is_checked_and_compiled() {
    let mut access = Footprint::new();
    assert!(access.add_read(2));
    assert!(access.add_read(2));
    assert!(!access.add_write(2));
    assert!(access.add_write(5));
    assert!(!access.add_write(5));
    assert!(!access.add_read(5));

    let mut archetypes = Archetypes::new();
    let c2 = ComponentId::from_bits(2);
    let c5 = ComponentId::from_bits(5);
    let c9 = ComponentId::from_bits(9);
    let only2 = archetypes.add_component(0, c2);
    let both = archetypes.add_component(only2, c5);
    let all = archetypes.add_component(both, c9);
    let expr = compile(BoolExpr::without(c9), &access);
    assert!(!archetypes.matches(only2, &expr));
    assert!(archetypes.matches(both, &expr));
    assert!(!archetypes.matches(all, &expr));
}

#[test]
fn fresh_world_has_room() {
    let mut world = World::new();
    assert!(world.room_left());
    let e = world.spawn();
    assert!(world.room_left());
    assert!(world.insert_component(e, ComponentId::from_bits(4)));
    assert!(world.room_left());
}
