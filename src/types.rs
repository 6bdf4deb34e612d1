pub use ethercat_types::{Access, AlState, DataType, Offset, SdoEntryAccess};
use vstd::prelude::*;

verus! {

/// Declares std::io::Error, carried opaque by `Error::Io`.
#[verifier::external_type_specification]
#[verifier::external_body]
pub struct ExIoError(std::io::Error);

/// Declares ethercat_types::Access; its variants are read as the crate defines them.
#[verifier::external_type_specification]
pub struct ExAccess(ethercat_types::Access);

/// Declares ethercat_types::SdoEntryAccess; its public fields are read as the crate defines them.
#[verifier::external_type_specification]
pub struct ExSdoEntryAccess(ethercat_types::SdoEntryAccess);

/// Declares ethercat_types::Offset, the place of an entry in the domain image
/// that the master reports; its public fields are read as the crate defines them.
#[verifier::external_type_specification]
pub struct ExOffset(ethercat_types::Offset);

/// Declares ethercat_types::AlState, carried opaque in slave descriptions.
#[verifier::external_type_specification]
#[verifier::external_body]
pub struct ExAlState(ethercat_types::AlState);

/// Declares ethercat_types::DataType, carried opaque in SDO entry descriptions.
#[verifier::external_type_specification]
#[verifier::external_body]
pub struct ExDataType(ethercat_types::DataType);

/// Errors reported by the master.
#[derive(Debug)]
pub enum Error {
    NoDevices,
    SmIdxTooLarge,
    DomainIdx(usize),
    KernelModule(u32, u32),
    NoDomain,
    NotActivated,
    InvalidAlState(u8),
    Io(std::io::Error),
}

pub type MasterIdx = u32;

pub type SlaveConfigIdx = u32;

/// Number of ports that a slave description holds.
pub const EC_MAX_PORTS: usize = 4;

/// An EtherCAT slave identification, consisting of vendor ID and product code.
#[derive(Debug, Clone, Copy)]
pub struct SlaveId {
    pub vendor_id: u32,
    pub product_code: u32,
}

impl SlaveId {
    pub fn new(vendor_id: u32, product_code: u32) -> (r: Self)
        ensures
            r.vendor_id == vendor_id,
            r.product_code == product_code,
    {
        SlaveId { vendor_id, product_code }
    }
}

/// An EtherCAT slave revision identification.
#[derive(Debug, Clone, Copy)]
pub struct SlaveRev {
    pub revision_number: u32,
    pub serial_number: u32,
}

impl SlaveRev {
    pub fn new(revision_number: u32, serial_number: u32) -> (r: Self)
        ensures
            r.revision_number == revision_number,
            r.serial_number == serial_number,
    {
        SlaveRev { revision_number, serial_number }
    }
}

/// An EtherCAT slave, which is specified either by absolute position in the
/// ring or by offset from a given alias.
#[derive(Debug, Clone, Copy)]
pub enum SlaveAddr {
    ByPos(u16),
    ByAlias(u16, u16),
}

impl SlaveAddr {
    /// The (alias, position) pair that addresses the slave; alias 0 means no alias.
    pub fn as_pair(self) -> (r: (u16, u16))
        ensures
            r == (match self {
                SlaveAddr::ByPos(x) => (0u16, x),
                SlaveAddr::ByAlias(x, y) => (x, y),
            }),
    {
        match self {
            SlaveAddr::ByPos(x) => (0, x),
            SlaveAddr::ByAlias(x, y) => (x, y),
        }
    }
}

#[derive(Debug, Clone)]
pub struct MasterInfo {
    /// Number of slaves in the bus.
    pub slave_count: u32,
    /// true, if the network link is up.
    pub link_up: bool,
    pub scan_busy: bool,
    /// Application time.
    pub app_time: u64,
}

#[derive(Debug, Clone)]
pub struct MasterState {
    /// Sum of responding slaves on all Ethernet devices.
    pub slaves_responding: u32,
    /// Application-layer states of all slaves, coded in the lower 4 bits:
    /// bit 0 INIT, bit 1 PREOP, bit 2 SAFEOP, bit 3 OP. A set bit means that
    /// at least one slave in the bus is in the corresponding state.
    pub al_states: u8,
    /// true, if at least one Ethernet link is up.
    pub link_up: bool,
}

#[derive(Debug, Clone)]
pub struct ConfigInfo {
    pub alias: u16,
    pub position: u16,
    pub id: SlaveId,
    pub slave_position: Option<u16>,
    pub sdo_count: u32,
    pub idn_count: u32,
}

/// Slave information
#[derive(Debug)]
pub struct SlaveInfo {
    /// Display name of the slave
    pub name: String,
    /// Offset of the slave in the ring
    pub ring_pos: u16,
    /// Vendor-ID and product code stored on the slave
    pub id: SlaveId,
    /// Revision-Number stored on the slave
    pub rev: SlaveRev,
    /// The slaves alias if not equal to 0
    pub alias: u16,
    /// Used current in mA
    pub current_on_ebus: i16,
    /// Current state of the slave
    pub al_state: AlState,
    /// Error flag for that slave
    pub error_flag: u8,
    /// Number of sync managers
    pub sync_count: u8,
    /// Number of SDOs
    pub sdo_count: u16,
    /// Port information, statically sized to the max number of ports
    pub ports: [SlavePortInfo; EC_MAX_PORTS],
}

impl Clone for SlaveInfo {
    fn clone(&self) -> Self {
        SlaveInfo {
            name: self.name.clone(),
            ring_pos: self.ring_pos,
            id: self.id,
            rev: self.rev,
            alias: self.alias,
            current_on_ebus: self.current_on_ebus,
            al_state: self.al_state,
            error_flag: self.error_flag,
            sync_count: self.sync_count,
            sdo_count: self.sdo_count,
            ports: self.ports,
        }
    }
}

/// EtherCAT slave port descriptor
#[derive(Debug, Clone, Copy)]
pub enum SlavePortType {
    /// Port is not implemented
    NotImplemented,
    /// Port is not configured
    NotConfigured,
    /// Port is an E-Bus
    EBus,
    /// Port is a MII
    MII,
}

impl Default for SlavePortType {
    fn default() -> (r: Self)
        ensures
            r == SlavePortType::NotImplemented,
    {
        SlavePortType::NotImplemented
    }
}

#[derive(Debug, Default, Clone, Copy)]
pub struct SlavePortLink {
    /// Link detected
    pub link_up: bool,
    /// Loop closed
    pub loop_closed: bool,
    /// Detected signal on RX port
    pub signal_detected: bool,
}

/// port information that can be retreived with a `SlaveInfo`
#[derive(Debug, Default, Clone, Copy)]
pub struct SlavePortInfo {
    /// Physical port type
    pub desc: SlavePortType,
    /// Port link state
    pub link: SlavePortLink,
    /// Receive time on DC transmission delay measurement
    pub receive_time: u32,
    /// Ring position of next DC slave on that port
    pub next_slave: u16,
    /// Delay [ns] to next DC slave
    pub delay_to_next_dc: u32,
}

#[derive(Debug, Clone, Copy)]
pub struct SlaveConfigState {
    pub online: bool,
    pub operational: bool,
    pub al_state: AlState,
}

/// Direction of the process data carried by a sync manager.
#[derive(Debug, Clone, Copy, PartialEq, Eq, Structural)]
pub enum SyncDirection {
    Invalid,
    Output,
    Input,
}

/// Watchdog mode for sync manager configuration: whether a sync manager's
/// watchdog is to be enabled.
#[derive(Debug, Clone, Copy, PartialEq, Eq, Structural)]
pub enum WatchdogMode {
    /// Whether it is enabled or not depends on the default setting of the sync manager.
    Default,
    /// Enable the watchdog.
    Enable,
    /// Disable the watchdog.
    Disable,
}

/// Sync Manager Info
#[derive(Debug, Copy, Clone)]
pub struct SmInfo {
    /// index of the SDO that configures the sync manager
    pub index: u8,
    pub start_addr: u16,
    pub default_size: u16,
    pub control_register: u8,
    pub enable: bool,
    /// number of PDO that can be set on this sync manager
    pub pdo_count: u8,
}

/// Sync Manager Config
#[derive(Debug, Clone, Copy)]
pub struct SmCfg {
    /// index of the sync manager on the slave
    pub index: u8,
    pub watchdog_mode: WatchdogMode,
    pub direction: SyncDirection,
}

impl SmCfg {
    /// Configuration of an input sync manager with the default watchdog mode.
    pub fn input(index: u8) -> (r: Self)
        ensures
            r.index == index,
            r.direction == SyncDirection::Input,
            r.watchdog_mode == WatchdogMode::Default,
    {
        Self { index, direction: SyncDirection::Input, watchdog_mode: WatchdogMode::Default }
    }

    /// Configuration of an output sync manager with the default watchdog mode.
    pub fn output(index: u8) -> (r: Self)
        ensures
            r.index == index,
            r.direction == SyncDirection::Output,
            r.watchdog_mode == WatchdogMode::Default,
    {
        Self { index, direction: SyncDirection::Output, watchdog_mode: WatchdogMode::Default }
    }
}

/// PDO Config
#[derive(Debug, Clone)]
pub struct PdoCfg {
    /// PDO index on the slave
    pub index: u16,
    /// entries defining the mapping of the PDO to SDO items
    pub entries: Vec<PdoEntryInfo>,
}

impl PdoCfg {
    /// A PDO configuration with no entry.
    pub fn new(index: u16) -> (r: PdoCfg)
        ensures
            r.index == index,
            r.entries@.len() == 0,
    {
        Self { index, entries: Vec::new() }
    }
}

#[derive(Debug, Clone)]
pub struct DomainState {
    /// Value of the last working counter.
    pub working_counter: u32,
    /// Working counter interpretation.
    pub wc_state: WcState,
    /// Redundant link is in use.
    pub redundancy_active: bool,
}

/// Working counter interpretation.
#[derive(Debug, Clone, Copy, PartialEq, Eq, Structural)]
pub enum WcState {
    Zero,
    Incomplete,
    Complete,
}

impl WcState {
    /// Decodes the state reported by the master: 0, 1 and 2 are the only codes.
    pub fn from_raw(st: u32) -> (r: WcState)
        requires
            st <= 2,
        ensures
            st == 0 ==> r == WcState::Zero,
            st == 1 ==> r == WcState::Incomplete,
            st == 2 ==> r == WcState::Complete,
    {
        match st {
            0 => WcState::Zero,
            1 => WcState::Incomplete,
            _ => WcState::Complete,
        }
    }
}

/// The access type that a pair of read / write flags describes.
pub open spec fn access_of(read: u8, write: u8) -> Access {
    if read == 1 && write == 0 {
        Access::ReadOnly
    } else if read == 0 && write == 1 {
        Access::WriteOnly
    } else if read == 1 && write == 1 {
        Access::ReadWrite
    } else {
        Access::Unknown
    }
}

/// Access rights in the PREOP, SAFEOP and OP states, from the read and write
/// flags of each state in that order.
pub fn get_sdo_entry_access(read: [u8; 3], write: [u8; 3]) -> (r: SdoEntryAccess)
    ensures
        r.pre_op == access_of(read[0], write[0]),
        r.safe_op == access_of(read[1], write[1]),
        r.op == access_of(read[2], write[2]),
{
    SdoEntryAccess {
        pre_op: access(read[0], write[0]),
        safe_op: access(read[1], write[1]),
        op: access(read[2], write[2]),
    }
}

fn access(read: u8, write: u8) -> (r: Access)
    ensures
        r == access_of(read, write),
{
    match (read, write) {
        (1, 0) => Access::ReadOnly,
        (0, 1) => Access::WriteOnly,
        (1, 1) => Access::ReadWrite,
        _ => Access::Unknown,
    }
}

/// SDO Entry Address
#[derive(Debug, Clone, Copy, PartialEq, Eq, Hash, Structural)]
pub enum SdoEntryAddr {
    ByPos(u16, u8),
    ByIdx(Sdo),
}

/// Address of an SDO (Service Data Object).
///
/// An SDO is a variable on a slave that can be read/written through
/// - the service objects dictionnary in asynchronous (non-realtime) mode
/// - the process data objects (PDO) in synchronous (realtime) mode
#[derive(Debug, Copy, Clone, PartialEq, Eq, Hash, Structural)]
pub struct Sdo {
    /// index in the dictionnary
    pub index: u16,
    /// part of the SDO to access, can be `Sub(u8)` or `Complete`
    pub sub: SdoItem,
}

/// designate a part or the whole of an SDO
#[derive(Debug, Copy, Clone, PartialEq, Eq, Hash, Structural)]
pub enum SdoItem {
    /// designate the subindex of an SDO item
    Sub(u8),
    /// designate the whole SDO
    Complete,
}

impl Sdo {
    /// fast hand to create a SDO address with complete access
    pub fn complete(index: u16) -> (r: Self)
        ensures
            r == (Sdo { index, sub: SdoItem::Complete }),
    {
        Self { index, sub: SdoItem::Complete }
    }

    /// fast hand to create a SDO address with sub item access
    pub fn subitem(index: u16, sub: u8) -> (r: Self)
        ensures
            r == (Sdo { index, sub: SdoItem::Sub(sub) }),
    {
        Self { index, sub: SdoItem::Sub(sub) }
    }
}

impl SdoItem {
    /// The subindex, 0 for a complete access.
    pub fn unwrap(&self) -> (r: u8)
        ensures
            r == (match *self {
                SdoItem::Sub(i) => i,
                SdoItem::Complete => 0u8,
            }),
    {
        match self {
            SdoItem::Sub(i) => *i,
            SdoItem::Complete => 0,
        }
    }

    /// Whether the whole SDO is designated.
    pub fn is_complete(&self) -> (r: bool)
        ensures
            r == (*self is Complete),
    {
        match self {
            SdoItem::Sub(_) => false,
            SdoItem::Complete => true,
        }
    }
}

/// SDO Meta Information
#[derive(Debug, Clone, PartialEq)]
pub struct SdoInfo {
    pub pos: u16,
    /// SDO index in the object dictionnary
    pub index: u16,
    /// number of SDO entries (aka subitems)
    pub entry_count: u8,
    pub object_code: Option<u8>,
    pub name: String,
}

/// SDO Entry Information
#[derive(Debug, PartialEq)]
pub struct SdoEntryInfo {
    /// type of the data in this entry
    pub data_type: DataType,
    /// bit length of the entry data
    pub bit_len: u16,
    /// access type
    pub access: SdoEntryAccess,
    /// description of the entry, this value is unspecified and vendor-specific
    pub description: String,
}

impl Clone for SdoEntryInfo {
    fn clone(&self) -> Self {
        SdoEntryInfo {
            data_type: self.data_type,
            bit_len: self.bit_len,
            access: self.access,
            description: self.description.clone(),
        }
    }
}

/// PDO Meta Information
#[derive(Debug, Clone, PartialEq)]
pub struct PdoInfo {
    /// index of the sync manager the PDO belongs to
    pub sm: u8,
    pub pos: u8,
    /// index identifying the PDO
    pub index: u16,
    /// number of entries in the PDO, each entry is an SDO item
    pub entry_count: u8,
    /// description of the PDO, this value is unspecified and vendor-specific
    pub name: String,
}

/// PDO entry information
#[derive(Debug, Clone, PartialEq)]
pub struct PdoEntryInfo {
    /// position in the mapping
    pub pos: u8,
    /// SDO mapped
    pub entry: Sdo,
    /// bit length of the mapped SDO data
    pub bit_len: u8,
    /// name of the SDO data
    pub name: String,
}

} // verus!
