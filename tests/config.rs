use ethercat::config::MasterConfigurator;
use ethercat::field::TypeId;
use ethercat::mapping::{AvailablePdo, AvailableSync, MappingError, MappingInventory, PdoLayout};
use ethercat::types::{Offset, Sdo, SyncDirection};

fn item(n: u8) -> Sdo {
    Sdo::subitem(0x7000, n)
}

fn dictionnary() -> Vec<(Sdo, u8, TypeId)> {
    (1..=6).map(|n| (item(n), 16, TypeId::U16)).chain([(Sdo::complete(0x6000), 32, TypeId::I32)]).collect()
}

fn inventory(capacity: usize) -> MappingInventory {
    MappingInventory {
        pdos: vec![
            AvailablePdo {
                index: 0x1600,
                direction: SyncDirection::Output,
                layout: PdoLayout::Fixed(vec![item(1), item(2)]),
            },
            AvailablePdo {
                index: 0x1A00,
                direction: SyncDirection::Input,
                layout: PdoLayout::Fixed(vec![Sdo::complete(0x6000)]),
            },
            AvailablePdo {
                index: 0x1601,
                direction: SyncDirection::Output,
                layout: PdoLayout::Configurable(capacity),
            },
        ],
        syncs: vec![
            AvailableSync { index: 2, direction: SyncDirection::Output, capacity: 2 },
            AvailableSync { index: 3, direction: SyncDirection::Input, capacity: 1 },
        ],
    }
}

fn offset(byte: usize) -> Offset {
    Offset { byte, bit: 0 }
}

#[test]
fn invalid_direction_refused() {
    let mut cfg = MasterConfigurator::new(0, dictionnary());
    assert_eq!(cfg.require(1, &item(1), SyncDirection::Invalid), Err(MappingError::InvalidDirection));
    let m = cfg.resolve(1, &inventory(3)).unwrap();
    assert!(m.outputs.pdos.is_empty() && m.inputs.pdos.is_empty());
}

#[test]
fn require_twice_is_require_once() {
    let mut cfg = MasterConfigurator::new(0, dictionnary());
    assert_eq!(cfg.require(1, &item(3), SyncDirection::Output), Ok(()));
    assert_eq!(cfg.require(1, &item(3), SyncDirection::Output), Ok(()));
    let m = cfg.resolve(1, &inventory(1)).unwrap();
    assert_eq!(m.outputs.pdos.len(), 1);
    assert_eq!(m.outputs.pdos[0].index, 0x1601);
    assert_eq!(m.outputs.pdos[0].entries, vec![item(3)]);
}

#[test]
fn resolve_both_directions_and_request_fields() {
    let mut cfg = MasterConfigurator::new(5, dictionnary());
    assert_eq!(cfg.domain(), 5);
    for n in 1..=3 {
        cfg.require(1, &item(n), SyncDirection::Output).unwrap();
    }
    cfg.require(1, &Sdo::complete(0x6000), SyncDirection::Input).unwrap();
    let m = cfg.resolve(1, &inventory(3)).unwrap();
    let outs: Vec<(u16, Vec<Sdo>)> = m.outputs.pdos.iter().map(|p| (p.index, p.entries.clone())).collect();
    assert_eq!(outs, vec![(0x1600, vec![item(1), item(2)]), (0x1601, vec![item(3)])]);
    assert_eq!(m.outputs.syncs.len(), 1);
    assert_eq!((m.outputs.syncs[0].index, m.outputs.syncs[0].pdos.clone()), (2, vec![0x1600, 0x1601]));
    assert_eq!(m.inputs.pdos.len(), 1);
    assert_eq!((m.inputs.syncs[0].index, m.inputs.syncs[0].pdos.clone()), (3, vec![0x1A00]));

    // the master places the fixed PDO at bytes 0..4 and the configurable one at 4..10
    cfg.record_offset(1, &item(1), offset(0)).unwrap();
    cfg.record_offset(1, &item(2), offset(2)).unwrap();
    cfg.record_offset(1, &item(3), offset(4)).unwrap();
    cfg.record_offset(1, &Sdo::complete(0x6000), offset(10)).unwrap();
    let f = cfg.request::<u16>(1, item(3)).unwrap();
    assert_eq!((f.byte, f.bit, f.bitlen), (4, 0, 2));
    assert!(f.accepts(14));
    assert!(4 <= f.byte && f.byte + 2 <= 10);
    let g = cfg.request::<i32>(1, Sdo::complete(0x6000)).unwrap();
    assert_eq!((g.byte, g.bit, g.bitlen), (10, 0, 4));

    let mut image = [0u8; 14];
    f.set(&mut image, 0xBEEF);
    g.set(&mut image, -5);
    assert_eq!(f.get(&image), 0xBEEF);
    assert_eq!(g.get(&image), -5);
}

#[test]
fn six_outputs_lack_pdo() {
    let mut cfg = MasterConfigurator::new(0, dictionnary());
    for n in 1..=6 {
        cfg.require(1, &item(n), SyncDirection::Output).unwrap();
    }
    assert_eq!(cfg.resolve(1, &inventory(3)).unwrap_err(), MappingError::LackOfPdo);
    assert_eq!(cfg.record_offset(1, &item(1), offset(0)), Err(MappingError::UnknownItem));
}

#[test]
fn resolve_failure_repeats_with_same_inputs() {
    let mut cfg = MasterConfigurator::new(0, dictionnary());
    for n in 1..=6 {
        cfg.require(1, &item(n), SyncDirection::Output).unwrap();
    }
    assert_eq!(cfg.resolve(1, &inventory(3)).unwrap_err(), MappingError::LackOfPdo);
    assert_eq!(cfg.resolve(1, &inventory(3)).unwrap_err(), MappingError::LackOfPdo);
    assert!(cfg.resolve(1, &inventory(4)).is_ok());
}

#[test]
fn three_used_pdos_two_sync_places_lack_sync() {
    let mut cfg = MasterConfigurator::new(0, dictionnary());
    for n in 1..=4 {
        cfg.require(1, &item(n), SyncDirection::Output).unwrap();
    }
    let mut inv = inventory(1);
    inv.pdos.push(AvailablePdo { index: 0x1602, direction: SyncDirection::Output, layout: PdoLayout::Configurable(1) });
    assert_eq!(cfg.resolve(1, &inv).unwrap_err(), MappingError::LackOfSync);
}

#[test]
fn request_unknown_item() {
    let mut cfg = MasterConfigurator::new(0, dictionnary());
    assert_eq!(cfg.request::<u16>(1, item(1)).unwrap_err(), MappingError::UnknownItem);
    cfg.require(1, &item(1), SyncDirection::Output).unwrap();
    assert_eq!(cfg.request::<u16>(1, item(1)).unwrap_err(), MappingError::UnknownItem);
    cfg.resolve(1, &inventory(3)).unwrap();
    // placed, but its offset not known yet
    assert_eq!(cfg.request::<u16>(1, item(1)).unwrap_err(), MappingError::UnknownItem);
    // another slave
    assert_eq!(cfg.record_offset(2, &item(1), offset(0)), Err(MappingError::UnknownItem));
}

#[test]
fn dictionnary_types_and_lengths() {
    let cfg = MasterConfigurator::new(0, dictionnary());
    assert_eq!(cfg.type_of(&item(1)), Some(TypeId::U16));
    assert_eq!(cfg.type_of(&Sdo::complete(0x6000)), Some(TypeId::I32));
    assert_eq!(cfg.type_of(&item(9)), None);
    assert_eq!(cfg.bit_len(&item(2)), Some(16));
    assert_eq!(cfg.bit_len(&Sdo::complete(0x6000)), Some(32));
    assert_eq!(cfg.bit_len(&item(9)), None);
}

#[test]
fn offset_known_once_recorded() {
    let mut cfg = MasterConfigurator::new(0, dictionnary());
    cfg.require(1, &item(1), SyncDirection::Output).unwrap();
    assert_eq!(cfg.offset_of(1, &item(1)), Err(MappingError::UnknownItem));
    cfg.resolve(1, &inventory(3)).unwrap();
    assert_eq!(cfg.offset_of(1, &item(1)), Err(MappingError::UnknownItem));
    cfg.record_offset(1, &item(1), offset(6)).unwrap();
    assert_eq!(cfg.offset_of(1, &item(1)), Ok((6, 0)));
    assert_eq!(cfg.required_items(1, SyncDirection::Output), vec![item(1)]);
    assert!(cfg.required_items(1, SyncDirection::Input).is_empty());
}

#[test]
fn slaves_resolved_independently() {
    let mut cfg = MasterConfigurator::new(0, dictionnary());
    cfg.require(1, &item(1), SyncDirection::Output).unwrap();
    cfg.require(2, &item(4), SyncDirection::Output).unwrap();
    cfg.resolve(1, &inventory(3)).unwrap();
    cfg.record_offset(1, &item(1), offset(0)).unwrap();
    cfg.resolve(2, &inventory(3)).unwrap();
    cfg.record_offset(2, &item(4), offset(20)).unwrap();
    assert_eq!(cfg.request::<u16>(1, item(1)).unwrap().byte, 0);
    assert_eq!(cfg.request::<u16>(2, item(4)).unwrap().byte, 20);
}

#[test]
fn recorded_bit_offset_kept() {
    let mut cfg = MasterConfigurator::new(0, dictionnary());
    cfg.require(1, &item(1), SyncDirection::Output).unwrap();
    cfg.resolve(1, &inventory(3)).unwrap();
    cfg.record_offset(1, &item(1), Offset { byte: 3, bit: 5 }).unwrap();
    let f = cfg.request::<u16>(1, item(1)).unwrap();
    assert_eq!((f.byte, f.bit), (3, 5));
    assert!(!f.accepts(16));
}
