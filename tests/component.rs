use evenio::bit_set::BitSet;
use evenio::component::{Component, ComponentId, ComponentInfo, Components};
use evenio::layout::ElemLayout;
use evenio::sparse::BitSetIndex;

struct Position {
    _x: u64,
    _y: u64,
}
impl Component for Position {}

struct Name {
    _s: String,
}
impl Component for Name {}

#[test]
fn component_id_bits_round_trip() {
    assert_eq!(ComponentId::from_bits(7).to_bits(), 7);
    assert_eq!(ComponentId::default().to_bits(), u32::MAX);
    assert_eq!(ComponentId::from_bits(42).bit_set_index(), 42);
    assert_eq!(ComponentId::from_bit_set_index(5), ComponentId::from_bits(5));
}

#[test]
fn init_component_reuses_ids() {
    let mut components = Components::new();
    let p = components.init_component::<Position>();
    let n = components.init_component::<Name>();
    assert_eq!(p.to_bits(), 0);
    assert_eq!(n.to_bits(), 1);
    assert_eq!(components.init_component::<Position>(), p);
    let info = components.get(p).unwrap();
    assert_eq!(info.layout(), ElemLayout { size: 16, align: 8 });
    assert!(!info.drop());
    assert!(components.get(n).unwrap().drop());
    assert_eq!(info.type_id(), Some(std::any::TypeId::of::<Position>()));
}

#[test]
fn removed_ids_are_not_reused() {
    let mut components = Components::new();
    let a = components.add(ComponentInfo::from_layout(ElemLayout { size: 4, align: 4 }, false));
    assert!(components.remove(a).is_some());
    assert!(components.get(a).is_none());
    assert!(components.remove(a).is_none());
    let b = components.add(ComponentInfo::from_layout(ElemLayout { size: 4, align: 4 }, false));
    assert_eq!(b.to_bits(), 1);
    assert!(components.get(ComponentId::from_bits(9)).is_none());
}

#[test]
fn referenced_component_is_not_removed() {
    let mut components = Components::new();
    let a = components.add(ComponentInfo::from_layout(ElemLayout { size: 1, align: 1 }, true));
    assert!(components.insert_member(a, 3));
    assert!(components.get(a).unwrap().is_member_of(3));
    assert!(components.remove(a).is_none());
    assert!(components.get(a).is_some());
    assert!(components.remove_member(a, 3));
    assert!(components.remove(a).is_some());
    assert!(!components.insert_member(a, 3));
}

#[test]
fn bit_set_operations() {
    let mut s = BitSet::new();
    assert!(s.is_empty());
    assert!(s.insert(3));
    assert!(!s.insert(3));
    assert!(s.insert(70));
    assert!(s.contains(70));
    assert!(!s.contains(4));
    let mut t = BitSet::new();
    t.insert(4);
    assert!(s.is_disjoint(&t));
    t.insert(70);
    assert!(!s.is_disjoint(&t));
    s.union_with(&t);
    assert_eq!(s.to_vec(), vec![3, 4, 70]);
    assert!(s.remove(3));
    assert!(!s.remove(3));
    assert_eq!(s.to_vec(), vec![4, 70]);
}

#[test]
fn register_returns_existing_id_for_known_token() {
    let mut components = Components::new();
    let t = std::any::TypeId::of::<Position>();
    let first = components.register(t, ComponentInfo::new::<Position>());
    let again = components.register(t, ComponentInfo::new::<Position>());
    assert_eq!(first, again);
    assert_eq!(components.get(first).unwrap().layout(), ElemLayout { size: 16, align: 8 });
    assert_eq!(components.get(first).unwrap().type_id(), Some(t));
    let other = components.register(std::any::TypeId::of::<Name>(), ComponentInfo::new::<Name>());
    assert_eq!(other.to_bits(), 1);
    assert_ne!(other, first);
    assert_eq!(components.init_component::<Position>(), first);
    assert_eq!(ComponentId::from_bits(first.to_bits()), first);
}

#[test]
fn removed_type_registers_again_under_fresh_id() {
    let mut components = Components::new();
    let p = components.init_component::<Position>();
    let n = components.init_component::<Name>();
    assert!(components.remove(p).is_some());
    assert!(components.get(p).is_none());
    let position_again = components.init_component::<Position>();
    assert_ne!(position_again, p);
    assert_eq!(position_again.to_bits(), 2);
    assert_eq!(components.get(position_again).unwrap().type_id(), Some(std::any::TypeId::of::<Position>()));
    assert!(components.get(p).is_none());
    assert_eq!(components.init_component::<Name>(), n);
}
