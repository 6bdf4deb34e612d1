use ethercat::types::{
    get_sdo_entry_access, Access, PdoCfg, SdoItem, SlaveAddr, SlaveId, SlavePortType, SlaveRev,
    SmCfg, Sdo, SyncDirection, WatchdogMode, WcState,
};

#[test]
fn sdo_constructors() {
    let c = Sdo::complete(0x6040);
    assert_eq!(c.index, 0x6040);
    assert_eq!(c.sub, SdoItem::Complete);
    let s = Sdo::subitem(0x6040, 3);
    assert_eq!(s, Sdo { index: 0x6040, sub: SdoItem::Sub(3) });
    assert_ne!(c, s);
}

#[test]
fn sdo_item_unwrap_and_is_complete() {
    assert_eq!(SdoItem::Sub(7).unwrap(), 7);
    assert_eq!(SdoItem::Complete.unwrap(), 0);
    assert!(SdoItem::Complete.is_complete());
    assert!(!SdoItem::Sub(0).is_complete());
}

#[test]
fn sync_manager_configs() {
    let i = SmCfg::input(3);
    assert_eq!(i.index, 3);
    assert_eq!(i.direction, SyncDirection::Input);
    assert_eq!(i.watchdog_mode, WatchdogMode::Default);
    let o = SmCfg::output(2);
    assert_eq!(o.index, 2);
    assert_eq!(o.direction, SyncDirection::Output);
    assert_eq!(o.watchdog_mode, WatchdogMode::Default);
}

#[test]
fn pdo_config_starts_empty() {
    let p = PdoCfg::new(0x1600);
    assert_eq!(p.index, 0x1600);
    assert!(p.entries.is_empty());
}

#[test]
fn slave_address_pairs() {
    assert_eq!(SlaveAddr::ByPos(4).as_pair(), (0, 4));
    assert_eq!(SlaveAddr::ByAlias(10, 2).as_pair(), (10, 2));
}

#[test]
fn slave_identifiers() {
    let id = SlaveId::new(2, 0x044c2c52);
    assert_eq!((id.vendor_id, id.product_code), (2, 0x044c2c52));
    let rev = SlaveRev::new(0x00110000, 17);
    assert_eq!((rev.revision_number, rev.serial_number), (0x00110000, 17));
}

#[test]
fn entry_access_from_flags() {
    let a = get_sdo_entry_access([1, 0, 1], [0, 1, 1]);
    assert_eq!(a.pre_op, Access::ReadOnly);
    assert_eq!(a.safe_op, Access::WriteOnly);
    assert_eq!(a.op, Access::ReadWrite);
    let u = get_sdo_entry_access([0, 2, 1], [0, 0, 7]);
    assert_eq!(u.pre_op, Access::Unknown);
    assert_eq!(u.safe_op, Access::Unknown);
    assert_eq!(u.op, Access::Unknown);
}

#[test]
fn working_counter_states() {
    assert_eq!(WcState::from_raw(0), WcState::Zero);
    assert_eq!(WcState::from_raw(1), WcState::Incomplete);
    assert_eq!(WcState::from_raw(2), WcState::Complete);
}

#[test]
fn port_type_defaults_to_not_implemented() {
    assert!(matches!(SlavePortType::default(), SlavePortType::NotImplemented));
}
