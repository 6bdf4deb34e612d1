use ethercat::mapping::{solve, AvailablePdo, AvailableSync, Mapping, MappingError, PdoLayout};
use ethercat::types::{Sdo, SyncDirection};

fn item(n: u8) -> Sdo {
    Sdo::subitem(0x7000, n)
}

fn fixed(index: u16, items: &[Sdo]) -> AvailablePdo {
    AvailablePdo { index, direction: SyncDirection::Output, layout: PdoLayout::Fixed(items.to_vec()) }
}

fn configurable(index: u16, capacity: usize) -> AvailablePdo {
    AvailablePdo { index, direction: SyncDirection::Output, layout: PdoLayout::Configurable(capacity) }
}

fn sync(index: u8, capacity: usize) -> AvailableSync {
    AvailableSync { index, direction: SyncDirection::Output, capacity }
}

fn pdo_list(m: &Mapping) -> Vec<(u16, Vec<Sdo>)> {
    m.pdos.iter().map(|p| (p.index, p.entries.clone())).collect()
}

fn sync_list(m: &Mapping) -> Vec<(u8, Vec<u16>)> {
    m.syncs.iter().map(|s| (s.index, s.pdos.clone())).collect()
}

const CF: u16 = 0x1600;
const CC: u16 = 0x1601;

#[test]
fn fixed_then_configurable_fill_one_sync() {
    let (a, b, c) = (item(1), item(2), item(3));
    let pdos = vec![fixed(CF, &[a, b]), configurable(CC, 3)];
    let syncs = vec![sync(2, 2)];
    let m = solve(&vec![a, b, c], &pdos, &syncs).unwrap();
    assert_eq!(pdo_list(&m), vec![(CF, vec![a, b]), (CC, vec![c])]);
    assert_eq!(sync_list(&m), vec![(2, vec![CF, CC])]);
}

#[test]
fn too_many_leftovers_lack_pdo() {
    let reqs: Vec<Sdo> = (1..=6).map(item).collect();
    let pdos = vec![fixed(CF, &[item(1), item(2)]), configurable(CC, 3)];
    let syncs = vec![sync(2, 2)];
    assert_eq!(solve(&reqs, &pdos, &syncs).unwrap_err(), MappingError::LackOfPdo);
}

#[test]
fn leftovers_exactly_fill_configurable() {
    let reqs: Vec<Sdo> = (1..=5).map(item).collect();
    let pdos = vec![fixed(CF, &[item(1), item(2)]), configurable(CC, 3)];
    let m = solve(&reqs, &pdos, &vec![sync(2, 2)]).unwrap();
    assert_eq!(pdo_list(&m), vec![(CF, vec![item(1), item(2)]), (CC, vec![item(3), item(4), item(5)])]);
}

#[test]
fn three_pdos_two_places_lack_sync() {
    let pdos = vec![fixed(0x1600, &[item(1)]), fixed(0x1601, &[item(2)]), fixed(0x1602, &[item(3)])];
    let syncs = vec![sync(2, 1), sync(3, 1)];
    let reqs = vec![item(1), item(2), item(3)];
    assert_eq!(solve(&reqs, &pdos, &syncs).unwrap_err(), MappingError::LackOfSync);
}

#[test]
fn syncs_filled_in_order() {
    let pdos = vec![fixed(0x1600, &[item(1)]), fixed(0x1601, &[item(2)]), fixed(0x1602, &[item(3)])];
    let syncs = vec![sync(2, 2), sync(3, 4)];
    let reqs = vec![item(1), item(2), item(3)];
    let m = solve(&reqs, &pdos, &syncs).unwrap();
    assert_eq!(sync_list(&m), vec![(2, vec![0x1600, 0x1601]), (3, vec![0x1602])]);
}

#[test]
fn largest_fixed_pdo_picked_first_and_redundant_one_left() {
    // 0x1A00 reaches 1 only, 0x1A01 reaches 1, 2 and 3: the second is picked,
    // after which the first reaches nothing new and stays unused.
    let pdos = vec![fixed(0x1A00, &[item(1)]), fixed(0x1A01, &[item(1), item(2), item(3)])];
    let m = solve(&vec![item(1), item(2), item(3)], &pdos, &vec![sync(3, 4)]).unwrap();
    assert_eq!(pdo_list(&m), vec![(0x1A01, vec![item(1), item(2), item(3)])]);
    assert_eq!(sync_list(&m), vec![(3, vec![0x1A01])]);
}

#[test]
fn tie_goes_to_first_in_inventory() {
    let pdos = vec![fixed(0x1A00, &[item(1)]), fixed(0x1A01, &[item(1)])];
    let m = solve(&vec![item(1)], &pdos, &vec![sync(3, 4)]).unwrap();
    assert_eq!(pdo_list(&m), vec![(0x1A00, vec![item(1)])]);
}

#[test]
fn fixed_pdo_without_required_item_unused() {
    let pdos = vec![fixed(0x1600, &[item(9)]), configurable(CC, 2)];
    let m = solve(&vec![item(1)], &pdos, &vec![sync(2, 1)]).unwrap();
    assert_eq!(pdo_list(&m), vec![(CC, vec![item(1)])]);
}

#[test]
fn fixed_pdo_used_whole_even_with_unrequired_entries() {
    let pdos = vec![fixed(0x1600, &[item(9), item(1)])];
    let m = solve(&vec![item(1)], &pdos, &vec![sync(2, 1)]).unwrap();
    assert_eq!(pdo_list(&m), vec![(0x1600, vec![item(9), item(1)])]);
}

#[test]
fn no_requirement_uses_nothing() {
    let pdos = vec![fixed(CF, &[item(1)]), configurable(CC, 3)];
    let m = solve(&vec![], &pdos, &vec![sync(2, 0)]).unwrap();
    assert!(m.pdos.is_empty());
    assert_eq!(sync_list(&m), vec![(2, vec![])]);
}

#[test]
fn empty_inventory_with_requirement_lacks_pdo() {
    assert_eq!(solve(&vec![item(1)], &vec![], &vec![]).unwrap_err(), MappingError::LackOfPdo);
}

#[test]
fn configurables_filled_one_after_another() {
    let reqs: Vec<Sdo> = (1..=5).map(item).collect();
    let pdos = vec![configurable(0x1600, 2), configurable(0x1601, 0), configurable(0x1602, 2), configurable(0x1603, 4)];
    let m = solve(&reqs, &pdos, &vec![sync(2, 3)]).unwrap();
    assert_eq!(
        pdo_list(&m),
        vec![(0x1600, vec![item(1), item(2)]), (0x1602, vec![item(3), item(4)]), (0x1603, vec![item(5)])]
    );
    assert_eq!(sync_list(&m), vec![(2, vec![0x1600, 0x1602, 0x1603])]);
}

#[test]
fn room_enough_resolves_every_requirement() {
    let reqs: Vec<Sdo> = (1..=4).map(item).collect();
    let pdos = vec![fixed(CF, &[item(2), item(7)]), configurable(CC, 4)];
    let m = solve(&reqs, &pdos, &vec![sync(2, 1), sync(3, 1)]).unwrap();
    for r in &reqs {
        let n = m.pdos.iter().filter(|p| p.entries.contains(r)).count();
        assert_eq!(n, 1);
    }
    assert_eq!(sync_list(&m), vec![(2, vec![CF]), (3, vec![CC])]);
}

#[test]
fn solve_is_deterministic() {
    let reqs: Vec<Sdo> = (1..=4).map(item).collect();
    let make = || vec![fixed(CF, &[item(2), item(3)]), fixed(0x1602, &[item(3)]), configurable(CC, 4)];
    let a = solve(&reqs, &make(), &vec![sync(2, 3)]).unwrap();
    let b = solve(&reqs, &make(), &vec![sync(2, 3)]).unwrap();
    assert_eq!(pdo_list(&a), pdo_list(&b));
    assert_eq!(sync_list(&a), sync_list(&b));
}

#[test]
fn lack_of_pdo_reported_before_lack_of_sync() {
    let pdos = vec![fixed(0x1600, &[item(1)]), fixed(0x1601, &[item(2)]), configurable(CC, 0)];
    let reqs = vec![item(1), item(2), item(3)];
    assert_eq!(solve(&reqs, &pdos, &vec![sync(2, 1)]).unwrap_err(), MappingError::LackOfPdo);
}

#[test]
fn repeated_requirement_counts_once_for_pdos() {
    let c = item(3);
    let pdos = vec![configurable(CC, 1)];
    assert_eq!(solve(&vec![c, c], &pdos, &vec![]).unwrap_err(), MappingError::LackOfSync);
    let m = solve(&vec![c, c], &pdos, &vec![sync(2, 1)]).unwrap();
    assert_eq!(pdo_list(&m), vec![(CC, vec![c])]);
}

#[test]
fn repeated_requirement_placed_once() {
    let c = item(3);
    let m = solve(&vec![c, item(4), c], &vec![configurable(CC, 2)], &vec![sync(2, 1)]).unwrap();
    assert_eq!(pdo_list(&m), vec![(CC, vec![c, item(4)])]);
    let m = solve(&vec![c, c], &vec![configurable(CC, 2)], &vec![sync(2, 1)]).unwrap();
    assert_eq!(pdo_list(&m), vec![(CC, vec![c])]);
}
