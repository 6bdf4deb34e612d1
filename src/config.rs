use crate::field::{DType, Field, TypeId};
use crate::mapping::{
    carries, copy_range, lemma_distinct, lemma_enough_room_resolves, lemma_offers_valid, offers_of, offers_valid,
    pdo_room, solution, solve, sync_room, total, AvailablePdo, AvailableSync, Mapping,
    MappingError, MappingInventory, MappingModel, PdoLayout, PdoOffer,
};
use crate::types::{Sdo, SyncDirection};
use ethercat_types::Offset;
use vstd::prelude::*;

verus! {

/// An object that must be transferred to or from a slave.
#[derive(Debug, Clone, Copy, PartialEq, Eq, Structural)]
pub struct Requirement {
    pub slave: u16,
    pub sdo: Sdo,
    pub direction: SyncDirection,
}

/// Where a required object was placed in the domain image, once known.
#[derive(Debug, Clone, Copy)]
pub struct Placement {
    pub slave: u16,
    pub sdo: Sdo,
    /// byte and bit offset in the domain image
    pub offset: Option<(usize, u8)>,
}

/// The mappings of both transfer directions of a slave.
#[derive(Debug)]
pub struct SlaveMapping {
    pub outputs: Mapping,
    pub inputs: Mapping,
}

/// Collects the objects needed on each slave, resolves how they map to PDOs
/// and sync managers, and hands out the fields that locate them in the domain.
#[derive(Debug)]
pub struct MasterConfigurator {
    /// bit length and value type of each known object
    dictionnary: Vec<(Sdo, u8, TypeId)>,
    /// domain that receives the process data
    domain: usize,
    requirements: Vec<Requirement>,
    placements: Vec<Placement>,
}

/// Objects required on `slave` in `dir`, in the order they were first required.
pub open spec fn required(reqs: Seq<Requirement>, slave: u16, dir: SyncDirection) -> Seq<Sdo>
    decreases reqs.len(),
{
    if reqs.len() == 0 {
        seq![]
    } else {
        let prev = required(reqs.drop_last(), slave, dir);
        let q = reqs.last();
        if q.slave == slave && q.direction == dir {
            prev.push(q.sdo)
        } else {
            prev
        }
    }
}

/// A PDO view is of direction `dir`.
pub open spec fn pdo_toward(dir: SyncDirection) -> spec_fn(PdoOffer) -> bool {
    |p: PdoOffer| p.direction == dir
}

/// The PDOs of direction `dir`, in inventory order.
pub open spec fn pdos_toward(pdos: Seq<PdoOffer>, dir: SyncDirection) -> Seq<PdoOffer> {
    pdos.filter(pdo_toward(dir))
}

/// The sync managers of direction `dir`, in inventory order.
pub open spec fn syncs_toward(syncs: Seq<AvailableSync>, dir: SyncDirection) -> Seq<AvailableSync> {
    syncs.filter(|s: AvailableSync| s.direction == dir)
}

/// Mapping of one direction of `slave`, from the inventory of the slave.
pub open spec fn direction_solution(
    reqs: Seq<Requirement>,
    slave: u16,
    pdos: Seq<PdoOffer>,
    syncs: Seq<AvailableSync>,
    dir: SyncDirection,
) -> Result<MappingModel, MappingError> {
    solution(required(reqs, slave, dir), pdos_toward(pdos, dir), syncs_toward(syncs, dir))
}

/// Mappings of the outputs then the inputs of `slave`; the first error stops.
pub open spec fn slave_solution(
    reqs: Seq<Requirement>,
    slave: u16,
    pdos: Seq<PdoOffer>,
    syncs: Seq<AvailableSync>,
) -> Result<(MappingModel, MappingModel), MappingError> {
    match direction_solution(reqs, slave, pdos, syncs, SyncDirection::Output) {
        Err(e) => Err(e),
        Ok(o) => match direction_solution(reqs, slave, pdos, syncs, SyncDirection::Input) {
            Err(e) => Err(e),
            Ok(i) => Ok((o, i)),
        },
    }
}

/// Placements of the slaves other than `slave`.
pub open spec fn others(ps: Seq<Placement>, slave: u16) -> Seq<Placement>
    decreases ps.len(),
{
    if ps.len() == 0 {
        seq![]
    } else if ps.last().slave != slave {
        others(ps.drop_last(), slave).push(ps.last())
    } else {
        others(ps.drop_last(), slave)
    }
}

/// Placements, not located yet, of `items` on `slave`.
pub open spec fn fresh(slave: u16, items: Seq<Sdo>) -> Seq<Placement> {
    items.map_values(|x: Sdo| Placement { slave, sdo: x, offset: None })
}

/// Position of the first placement of `sdo` on `slave`, -1 if none.
pub open spec fn placement_pos(ps: Seq<Placement>, slave: u16, sdo: Sdo) -> int
    decreases ps.len(),
{
    if ps.len() == 0 {
        -1
    } else if ps[0].slave == slave && ps[0].sdo == sdo {
        0
    } else {
        let r = placement_pos(ps.drop_first(), slave, sdo);
        if r < 0 {
            -1
        } else {
            r + 1
        }
    }
}

/// Position of the first dictionary entry of `sdo`, -1 if none.
pub open spec fn entry_pos(d: Seq<(Sdo, u8, TypeId)>, sdo: Sdo) -> int
    decreases d.len(),
{
    if d.len() == 0 {
        -1
    } else if d[0].0 == sdo {
        0
    } else {
        let r = entry_pos(d.drop_first(), sdo);
        if r < 0 {
            -1
        } else {
            r + 1
        }
    }
}

proof fn lemma_placement_pos(ps: Seq<Placement>, slave: u16, sdo: Sdo)
    ensures
        -1 <= placement_pos(ps, slave, sdo) < ps.len(),
        placement_pos(ps, slave, sdo) >= 0 ==> ps[placement_pos(ps, slave, sdo)].slave == slave
            && ps[placement_pos(ps, slave, sdo)].sdo == sdo,
    decreases ps.len(),
{
    if ps.len() > 0 {
        lemma_placement_pos(ps.drop_first(), slave, sdo);
    }
}

proof fn lemma_entry_pos(d: Seq<(Sdo, u8, TypeId)>, sdo: Sdo)
    ensures
        -1 <= entry_pos(d, sdo) < d.len(),
        entry_pos(d, sdo) >= 0 ==> d[entry_pos(d, sdo)].0 == sdo,
    decreases d.len(),
{
    if d.len() > 0 {
        lemma_entry_pos(d.drop_first(), sdo);
    }
}

/// Byte and bit offset in the domain image of `sdo` on `slave`: unknown
/// until resolution placed it and its offset was recorded.
pub open spec fn located(ps: Seq<Placement>, slave: u16, sdo: Sdo) -> Result<(usize, u8), MappingError> {
    let p = placement_pos(ps, slave, sdo);
    if p < 0 || ps[p].offset is None {
        Err(MappingError::UnknownItem)
    } else {
        Ok(ps[p].offset->Some_0)
    }
}

/// Value type that the dictionary gives `sdo`, if it knows it.
pub open spec fn dict_type(d: Seq<(Sdo, u8, TypeId)>, sdo: Sdo) -> Option<TypeId> {
    if entry_pos(d, sdo) >= 0 {
        Some(d[entry_pos(d, sdo)].2)
    } else {
        None
    }
}

/// No object has two entries in the dictionary.
pub open spec fn keys_unique(d: Seq<(Sdo, u8, TypeId)>) -> bool {
    forall|i: int, j: int| 0 <= i < j < d.len() ==> #[trigger] d[i].0 != #[trigger] d[j].0
}

proof fn lemma_placement_found(ps: Seq<Placement>, slave: u16, sdo: Sdo, i: int)
    requires
        0 <= i < ps.len(),
        forall|j: int| 0 <= j < i ==> !(ps[j].slave == slave && ps[j].sdo == sdo),
        ps[i].slave == slave && ps[i].sdo == sdo,
    ensures
        placement_pos(ps, slave, sdo) == i,
    decreases i,
{
    if i > 0 {
        assert(!(ps[0].slave == slave && ps[0].sdo == sdo));
        lemma_placement_found(ps.drop_first(), slave, sdo, i - 1);
    }
}

proof fn lemma_placement_absent(ps: Seq<Placement>, slave: u16, sdo: Sdo)
    requires
        forall|j: int| 0 <= j < ps.len() ==> !(ps[j].slave == slave && ps[j].sdo == sdo),
    ensures
        placement_pos(ps, slave, sdo) == -1,
    decreases ps.len(),
{
    if ps.len() > 0 {
        assert(!(ps[0].slave == slave && ps[0].sdo == sdo));
        lemma_placement_absent(ps.drop_first(), slave, sdo);
    }
}

proof fn lemma_entry_found(d: Seq<(Sdo, u8, TypeId)>, sdo: Sdo, i: int)
    requires
        0 <= i < d.len(),
        forall|j: int| 0 <= j < i ==> d[j].0 != sdo,
        d[i].0 == sdo,
    ensures
        entry_pos(d, sdo) == i,
    decreases i,
{
    if i > 0 {
        assert(d[0].0 != sdo);
        lemma_entry_found(d.drop_first(), sdo, i - 1);
    }
}

proof fn lemma_entry_absent(d: Seq<(Sdo, u8, TypeId)>, sdo: Sdo)
    requires
        forall|j: int| 0 <= j < d.len() ==> d[j].0 != sdo,
    ensures
        entry_pos(d, sdo) == -1,
    decreases d.len(),
{
    if d.len() > 0 {
        assert(d[0].0 != sdo);
        lemma_entry_absent(d.drop_first(), sdo);
    }
}

/// Position of the first placement of `sdo` on `slave`.
fn find_placement(ps: &Vec<Placement>, slave: u16, sdo: Sdo) -> (r: Option<usize>)
    ensures
        match r {
            Some(i) => placement_pos(ps@, slave, sdo) == i as int,
            None => placement_pos(ps@, slave, sdo) == -1,
        },
{
    let mut i: usize = 0;
    while i < ps.len()
        invariant
            i <= ps@.len(),
            forall|j: int| 0 <= j < i ==> !(ps@[j].slave == slave && ps@[j].sdo == sdo),
        decreases ps@.len() - i,
    {
        if ps[i].slave == slave && ps[i].sdo == sdo {
            proof {
                lemma_placement_found(ps@, slave, sdo, i as int);
            }
            return Some(i);
        }
        i += 1;
    }
    proof {
        lemma_placement_absent(ps@, slave, sdo);
    }
    None
}

/// Position of the first dictionary entry of `sdo`.
fn find_entry(d: &Vec<(Sdo, u8, TypeId)>, sdo: Sdo) -> (r: Option<usize>)
    ensures
        match r {
            Some(i) => entry_pos(d@, sdo) == i as int,
            None => entry_pos(d@, sdo) == -1,
        },
{
    let mut i: usize = 0;
    while i < d.len()
        invariant
            i <= d@.len(),
            forall|j: int| 0 <= j < i ==> d@[j].0 != sdo,
        decreases d@.len() - i,
    {
        if d[i].0 == sdo {
            proof {
                lemma_entry_found(d@, sdo, i as int);
            }
            return Some(i);
        }
        i += 1;
    }
    proof {
        lemma_entry_absent(d@, sdo);
    }
    None
}

/// Objects required on `slave` in `dir`.
fn required_exec(reqs: &Vec<Requirement>, slave: u16, dir: SyncDirection) -> (r: Vec<Sdo>)
    ensures
        r@ == required(reqs@, slave, dir),
{
    let mut out: Vec<Sdo> = Vec::new();
    let mut i: usize = 0;
    assert(reqs@.take(0).len() == 0);
    while i < reqs.len()
        invariant
            i <= reqs@.len(),
            out@ == required(reqs@.take(i as int), slave, dir),
        decreases reqs@.len() - i,
    {
        assert(reqs@.take(i + 1).drop_last() =~= reqs@.take(i as int));
        if reqs[i].slave == slave && reqs[i].direction == dir {
            out.push(reqs[i].sdo);
        }
        i += 1;
    }
    assert(reqs@.take(i as int) =~= reqs@);
    out
}

/// A PDO offer with the same content.
fn copy_pdo(p: &AvailablePdo) -> (r: AvailablePdo)
    ensures
        r@ == p@,
{
    let layout = match &p.layout {
        PdoLayout::Fixed(e) => {
            let c = copy_range(e, 0, e.len());
            assert(c@ =~= e@);
            PdoLayout::Fixed(c)
        },
        PdoLayout::Configurable(c) => PdoLayout::Configurable(*c),
    };
    AvailablePdo { index: p.index, direction: p.direction, layout }
}

proof fn lemma_pdos_toward_push(s: Seq<PdoOffer>, x: PdoOffer, dir: SyncDirection)
    ensures
        pdos_toward(s.push(x), dir) == if x.direction == dir {
            pdos_toward(s, dir).push(x)
        } else {
            pdos_toward(s, dir)
        },
{
    reveal(Seq::filter);
    assert(s.push(x).drop_last() =~= s);
}

proof fn lemma_syncs_toward_push(s: Seq<AvailableSync>, x: AvailableSync, dir: SyncDirection)
    ensures
        syncs_toward(s.push(x), dir) == if x.direction == dir {
            syncs_toward(s, dir).push(x)
        } else {
            syncs_toward(s, dir)
        },
{
    reveal(Seq::filter);
    assert(s.push(x).drop_last() =~= s);
}

/// The PDOs of direction `dir`.
fn pdos_toward_exec(pdos: &Vec<AvailablePdo>, dir: SyncDirection) -> (r: Vec<AvailablePdo>)
    ensures
        offers_of(r@) == pdos_toward(offers_of(pdos@), dir),
{
    let mut out: Vec<AvailablePdo> = Vec::new();
    let mut i: usize = 0;
    proof {
        reveal(Seq::filter);
        assert(offers_of(out@) =~= pdos_toward(offers_of(pdos@).take(0), dir));
    }
    while i < pdos.len()
        invariant
            i <= pdos@.len(),
            offers_of(out@) == pdos_toward(offers_of(pdos@).take(i as int), dir),
        decreases pdos@.len() - i,
    {
        proof {
            assert(offers_of(pdos@).take(i + 1) =~= offers_of(pdos@).take(i as int).push(pdos@[i as int]@));
            lemma_pdos_toward_push(offers_of(pdos@).take(i as int), pdos@[i as int]@, dir);
        }
        if pdos[i].direction == dir {
            let p = copy_pdo(&pdos[i]);
            let ghost before = out@;
            out.push(p);
            assert(offers_of(out@) =~= offers_of(before).push(p@));
        }
        i += 1;
    }
    assert(offers_of(pdos@).take(i as int) =~= offers_of(pdos@));
    out
}

/// The sync managers of direction `dir`.
fn syncs_toward_exec(syncs: &Vec<AvailableSync>, dir: SyncDirection) -> (r: Vec<AvailableSync>)
    ensures
        r@ == syncs_toward(syncs@, dir),
{
    let mut out: Vec<AvailableSync> = Vec::new();
    let mut i: usize = 0;
    proof {
        reveal(Seq::filter);
        assert(out@ =~= syncs_toward(syncs@.take(0), dir));
    }
    while i < syncs.len()
        invariant
            i <= syncs@.len(),
            out@ == syncs_toward(syncs@.take(i as int), dir),
        decreases syncs@.len() - i,
    {
        proof {
            assert(syncs@.take(i + 1) =~= syncs@.take(i as int).push(syncs@[i as int]));
            lemma_syncs_toward_push(syncs@.take(i as int), syncs@[i as int], dir);
        }
        if syncs[i].direction == dir {
            out.push(syncs[i]);
        }
        i += 1;
    }
    assert(syncs@.take(i as int) =~= syncs@);
    out
}

/// Placements of the other slaves, then fresh placements of `outs` and `ins` on `slave`.
fn replace_placements(ps: &Vec<Placement>, slave: u16, outs: &Vec<Sdo>, ins: &Vec<Sdo>) -> (r: Vec<Placement>)
    ensures
        r@ == others(ps@, slave) + fresh(slave, outs@) + fresh(slave, ins@),
{
    let mut out: Vec<Placement> = Vec::new();
    let mut i: usize = 0;
    assert(ps@.take(0).len() == 0);
    while i < ps.len()
        invariant
            i <= ps@.len(),
            out@ == others(ps@.take(i as int), slave),
        decreases ps@.len() - i,
    {
        assert(ps@.take(i + 1).drop_last() =~= ps@.take(i as int));
        if ps[i].slave != slave {
            out.push(ps[i]);
        }
        i += 1;
    }
    assert(ps@.take(i as int) =~= ps@);
    let ghost kept = out@;
    let mut k: usize = 0;
    while k < outs.len()
        invariant
            k <= outs@.len(),
            out@ == kept + fresh(slave, outs@.take(k as int)),
        decreases outs@.len() - k,
    {
        out.push(Placement { slave, sdo: outs[k], offset: None });
        k += 1;
        assert(out@ =~= kept + fresh(slave, outs@.take(k as int)));
    }
    assert(outs@.take(k as int) =~= outs@);
    let ghost kept = out@;
    let mut k: usize = 0;
    while k < ins.len()
        invariant
            k <= ins@.len(),
            out@ == kept + fresh(slave, ins@.take(k as int)),
        decreases ins@.len() - k,
    {
        out.push(Placement { slave, sdo: ins[k], offset: None });
        k += 1;
        assert(out@ =~= kept + fresh(slave, ins@.take(k as int)));
    }
    assert(ins@.take(k as int) =~= ins@);
    out
}

impl MasterConfigurator {
    /// Requirements declared so far, in the order they were first declared.
    pub closed spec fn requirements(&self) -> Seq<Requirement> {
        self.requirements@
    }

    /// Objects placed by resolution, with their offsets once recorded.
    pub closed spec fn placements(&self) -> Seq<Placement> {
        self.placements@
    }

    /// Bit length and value type of each known object.
    pub closed spec fn dictionnary(&self) -> Seq<(Sdo, u8, TypeId)> {
        self.dictionnary@
    }

    /// The domain that receives the process data.
    pub closed spec fn domain_index(&self) -> usize {
        self.domain
    }

    /// A configurator for the given domain, that knows the bit length and the
    /// value type of the objects in `dictionnary`, one entry per object.
    pub fn new(domain: usize, dictionnary: Vec<(Sdo, u8, TypeId)>) -> (r: Self)
        requires
            keys_unique(dictionnary@),
        ensures
            r.dictionnary() == dictionnary@,
            r.domain_index() == domain,
            r.requirements().len() == 0,
            r.placements().len() == 0,
    {
        MasterConfigurator {
            dictionnary,
            domain,
            requirements: Vec::new(),
            placements: Vec::new(),
        }
    }

    /// The domain that receives the process data.
    pub fn domain(&self) -> (r: usize)
        ensures
            r == self.domain_index(),
    {
        self.domain
    }

    /// Objects required on `slave` in `dir`, in the order they were first required.
    pub fn required_items(&self, slave: u16, dir: SyncDirection) -> (r: Vec<Sdo>)
        ensures
            r@ == required(self.requirements(), slave, dir),
    {
        required_exec(&self.requirements, slave, dir)
    }

    /// Bit length that the dictionary gives `sdo`, if it knows it.
    pub fn bit_len(&self, sdo: &Sdo) -> (r: Option<u8>)
        ensures
            entry_pos(self.dictionnary(), *sdo) < 0 ==> r is None,
            entry_pos(self.dictionnary(), *sdo) >= 0 ==> r == Some(
                self.dictionnary()[entry_pos(self.dictionnary(), *sdo)].1,
            ),
    {
        match find_entry(&self.dictionnary, *sdo) {
            None => None,
            Some(e) => {
                proof {
                    lemma_entry_pos(self.dictionnary@, *sdo);
                }
                Some(self.dictionnary[e].1)
            },
        }
    }

    /// Declares that `sdo` is needed on `slave` in `direction`. Declaring it
    /// again changes nothing; an invalid direction is refused.
    pub fn require(&mut self, slave: u16, sdo: &Sdo, direction: SyncDirection) -> (r: Result<
        (),
        MappingError,
    >)
        ensures
            direction == SyncDirection::Invalid ==> r == Err::<(), MappingError>(
                MappingError::InvalidDirection,
            ) && final(self).requirements() == old(self).requirements(),
            direction != SyncDirection::Invalid ==> r is Ok && final(self).requirements() == (
            if old(self).requirements().contains(
                Requirement { slave, sdo: *sdo, direction },
            ) {
                old(self).requirements()
            } else {
                old(self).requirements().push(Requirement { slave, sdo: *sdo, direction })
            }),
            final(self).placements() == old(self).placements(),
            final(self).dictionnary() == old(self).dictionnary(),
            final(self).domain_index() == old(self).domain_index(),
    {
        if direction == SyncDirection::Invalid {
            return Err(MappingError::InvalidDirection);
        }
        let q = Requirement { slave, sdo: *sdo, direction };
        let mut i: usize = 0;
        while i < self.requirements.len()
            invariant
                i <= self.requirements@.len(),
                forall|j: int| 0 <= j < i ==> self.requirements@[j] != q,
                direction != SyncDirection::Invalid,
                q == (Requirement { slave, sdo: *sdo, direction }),
                self.requirements@ == old(self).requirements@,
                self.placements@ == old(self).placements@,
                self.dictionnary@ == old(self).dictionnary@,
                self.domain == old(self).domain,
            decreases self.requirements@.len() - i,
        {
            if self.requirements[i] == q {
                assert(self.requirements@[i as int] == q);
                return Ok(());
            }
            i += 1;
        }
        self.requirements.push(q);
        Ok(())
    }
}

impl MasterConfigurator {
    /// Finds a way to map the objects required on `slave` to the PDOs, and the
    /// PDOs to the sync managers, that `inventory` offers: outputs first, then
    /// inputs, each from the PDOs and sync managers of its direction. On
    /// success the objects of the slave are placed afresh, their offsets not
    /// known yet; on failure nothing changes.
    pub fn resolve(&mut self, slave: u16, inventory: &MappingInventory) -> (r: Result<
        SlaveMapping,
        MappingError,
    >)
        ensures
            match r {
                Ok(m) => slave_solution(
                    old(self).requirements(),
                    slave,
                    offers_of(inventory.pdos@),
                    inventory.syncs@,
                ) == Ok::<(MappingModel, MappingModel), MappingError>((m.outputs@, m.inputs@)),
                Err(e) => slave_solution(
                    old(self).requirements(),
                    slave,
                    offers_of(inventory.pdos@),
                    inventory.syncs@,
                ) == Err::<(MappingModel, MappingModel), MappingError>(e),
            },
            r is Ok ==> final(self).placements() == others(old(self).placements(), slave) + fresh(
                slave,
                required(old(self).requirements(), slave, SyncDirection::Output),
            ) + fresh(slave, required(old(self).requirements(), slave, SyncDirection::Input)),
            r is Err ==> final(self).placements() == old(self).placements(),
            final(self).requirements() == old(self).requirements(),
            final(self).dictionnary() == old(self).dictionnary(),
            final(self).domain_index() == old(self).domain_index(),
    {
        let outs = required_exec(&self.requirements, slave, SyncDirection::Output);
        let ins = required_exec(&self.requirements, slave, SyncDirection::Input);
        let out_pdos = pdos_toward_exec(&inventory.pdos, SyncDirection::Output);
        let out_syncs = syncs_toward_exec(&inventory.syncs, SyncDirection::Output);
        let outputs = match solve(&outs, &out_pdos, &out_syncs) {
            Ok(m) => m,
            Err(e) => return Err(e),
        };
        let in_pdos = pdos_toward_exec(&inventory.pdos, SyncDirection::Input);
        let in_syncs = syncs_toward_exec(&inventory.syncs, SyncDirection::Input);
        let inputs = match solve(&ins, &in_pdos, &in_syncs) {
            Ok(m) => m,
            Err(e) => return Err(e),
        };
        self.placements = replace_placements(&self.placements, slave, &outs, &ins);
        Ok(SlaveMapping { outputs, inputs })
    }

    /// Records the offset in the domain image where the master placed `sdo`
    /// of `slave`. Refused for an object that the last resolution of the
    /// slave did not place.
    pub fn record_offset(&mut self, slave: u16, sdo: &Sdo, offset: Offset) -> (r: Result<
        (),
        MappingError,
    >)
        ensures
            placement_pos(old(self).placements(), slave, *sdo) < 0 ==> r == Err::<(), MappingError>(
                MappingError::UnknownItem,
            ) && final(self).placements() == old(self).placements(),
            placement_pos(old(self).placements(), slave, *sdo) >= 0 ==> r is Ok
                && final(self).placements() == old(self).placements().update(
                placement_pos(old(self).placements(), slave, *sdo),
                Placement { slave, sdo: *sdo, offset: Some((offset.byte, offset.bit as u8)) },
            ),
            final(self).requirements() == old(self).requirements(),
            final(self).dictionnary() == old(self).dictionnary(),
            final(self).domain_index() == old(self).domain_index(),
    {
        proof {
            lemma_placement_pos(self.placements@, slave, *sdo);
        }
        match find_placement(&self.placements, slave, *sdo) {
            None => Err(MappingError::UnknownItem),
            Some(i) => {
                let bit = #[verifier::truncate] (offset.bit as u8);
                self.placements.set(i, Placement { slave, sdo: *sdo, offset: Some((offset.byte, bit)) });
                Ok(())
            },
        }
    }

    /// Value type that the dictionary gives `sdo`, if it knows it.
    pub fn type_of(&self, sdo: &Sdo) -> (r: Option<TypeId>)
        ensures
            r == dict_type(self.dictionnary(), *sdo),
    {
        match find_entry(&self.dictionnary, *sdo) {
            None => None,
            Some(e) => {
                proof {
                    lemma_entry_pos(self.dictionnary@, *sdo);
                }
                Some(self.dictionnary[e].2)
            },
        }
    }

    /// Byte and bit offset of `sdo` of `slave` in the domain image, once
    /// resolution placed it and its offset was recorded.
    pub fn offset_of(&self, slave: u16, sdo: &Sdo) -> (r: Result<(usize, u8), MappingError>)
        ensures
            r == located(self.placements(), slave, *sdo),
    {
        proof {
            lemma_placement_pos(self.placements@, slave, *sdo);
        }
        match find_placement(&self.placements, slave, *sdo) {
            None => Err(MappingError::UnknownItem),
            Some(p) => match self.placements[p].offset {
                None => Err(MappingError::UnknownItem),
                Some(o) => Ok(o),
            },
        }
    }

    /// The field that locates `sdo` of `slave` in the domain image, as a value
    /// of type `T`, which must be the type that the dictionary gives it: its
    /// length is the native byte width of `T`. Refused for an object without a
    /// recorded offset.
    pub fn request<T: DType>(&self, slave: u16, sdo: Sdo) -> (r: Result<Field<T>, MappingError>)
        requires
            dict_type(self.dictionnary(), sdo) == Some(T::spec_id()),
        ensures
            match r {
                Ok(f) => located(self.placements(), slave, sdo) == Ok::<(usize, u8), MappingError>(
                    (f.byte, f.bit),
                ) && f.bitlen == T::width(),
                Err(e) => located(self.placements(), slave, sdo) == Err::<(usize, u8), MappingError>(
                    e,
                ),
            },
    {
        let (byte, bit) = match self.offset_of(slave, &sdo) {
            Ok(o) => o,
            Err(e) => return Err(e),
        };
        Ok(Field::new(byte, bit, T::size()))
    }
}

proof fn lemma_placement_first(ps: Seq<Placement>, slave: u16, sdo: Sdo)
    ensures
        forall|j: int|
            0 <= j < ps.len() && (placement_pos(ps, slave, sdo) < 0 || j < placement_pos(ps, slave, sdo))
                ==> !(#[trigger] ps[j].slave == slave && ps[j].sdo == sdo),
    decreases ps.len(),
{
    if ps.len() > 0 {
        lemma_placement_first(ps.drop_first(), slave, sdo);
        assert forall|j: int|
            0 <= j < ps.len() && (placement_pos(ps, slave, sdo) < 0 || j < placement_pos(ps, slave, sdo))
                implies !(#[trigger] ps[j].slave == slave && ps[j].sdo == sdo) by {
            if j > 0 {
                assert(ps[j] == ps.drop_first()[j - 1]);
            }
        }
    }
}

proof fn lemma_required_contains(reqs: Seq<Requirement>, slave: u16, dir: SyncDirection, i: int)
    requires
        0 <= i < reqs.len(),
        reqs[i].slave == slave,
        reqs[i].direction == dir,
    ensures
        required(reqs, slave, dir).contains(reqs[i].sdo),
    decreases reqs.len(),
{
    let prev = required(reqs.drop_last(), slave, dir);
    if i < reqs.len() - 1 {
        assert(reqs.drop_last()[i] == reqs[i]);
        lemma_required_contains(reqs.drop_last(), slave, dir, i);
        let w = choose|w: int| 0 <= w < prev.len() && prev[w] == reqs[i].sdo;
        if reqs.last().slave == slave && reqs.last().direction == dir {
            assert(prev.push(reqs.last().sdo)[w] == reqs[i].sdo);
        }
    } else {
        assert(prev.push(reqs[i].sdo)[prev.len() as int] == reqs[i].sdo);
    }
}

/// After a successful resolution of a slave, every object required on it, in
/// either direction, has a placement: its offset can be recorded, and its
/// field requested once the offset is known.
pub proof fn lemma_resolved_requirements_placed(
    before: Seq<Placement>,
    reqs: Seq<Requirement>,
    slave: u16,
    i: int,
)
    requires
        0 <= i < reqs.len(),
        reqs[i].slave == slave,
        reqs[i].direction != SyncDirection::Invalid,
    ensures
        placement_pos(
            others(before, slave) + fresh(slave, required(reqs, slave, SyncDirection::Output))
                + fresh(slave, required(reqs, slave, SyncDirection::Input)),
            slave,
            reqs[i].sdo,
        ) >= 0,
{
    let outs = required(reqs, slave, SyncDirection::Output);
    let ins = required(reqs, slave, SyncDirection::Input);
    let ps = others(before, slave) + fresh(slave, outs) + fresh(slave, ins);
    let sdo = reqs[i].sdo;
    lemma_required_contains(reqs, slave, reqs[i].direction, i);
    let k = others(before, slave).len();
    let j = if reqs[i].direction == SyncDirection::Output {
        let w = choose|w: int| 0 <= w < outs.len() && outs[w] == sdo;
        k + w
    } else {
        let w = choose|w: int| 0 <= w < ins.len() && ins[w] == sdo;
        k + outs.len() + w
    };
    assert(ps[j].slave == slave && ps[j].sdo == sdo);
    lemma_placement_first(ps, slave, sdo);
}

/// Once the offset of a placed object is recorded, it is where the object is
/// located, so that requesting its field yields that offset.
pub proof fn lemma_request_after_record(ps: Seq<Placement>, slave: u16, sdo: Sdo, offset: Offset)
    requires
        placement_pos(ps, slave, sdo) >= 0,
    ensures
        located(
            ps.update(
                placement_pos(ps, slave, sdo),
                Placement { slave, sdo, offset: Some((offset.byte, offset.bit as u8)) },
            ),
            slave,
            sdo,
        ) == Ok::<(usize, u8), MappingError>((offset.byte, offset.bit as u8)),
{
    let p = placement_pos(ps, slave, sdo);
    lemma_placement_pos(ps, slave, sdo);
    lemma_placement_first(ps, slave, sdo);
    let after = ps.update(p, Placement { slave, sdo, offset: Some((offset.byte, offset.bit as u8)) });
    lemma_placement_found(after, slave, sdo, p);
}

proof fn lemma_pdos_toward_valid(pdos: Seq<AvailablePdo>, dir: SyncDirection)
    ensures
        offers_valid(pdos_toward(offers_of(pdos), dir)),
{
    lemma_offers_valid(pdos);
    let all = offers_of(pdos);
    let f = pdos_toward(all, dir);
    assert forall|i: int| 0 <= i < f.len() implies #[trigger] f[i].fixed.len() == 0 || f[i].room == 0 by {
        assert(f.contains(f[i]));
        all.lemma_filter_contains_rev(pdo_toward(dir), f[i]);
        let k = choose|k: int| 0 <= k < all.len() && all[k] == f[i];
    }
}

proof fn lemma_direction_carried(
    reqs: Seq<Requirement>,
    slave: u16,
    pdos: Seq<AvailablePdo>,
    syncs: Seq<AvailableSync>,
    dir: SyncDirection,
)
    requires
        required(reqs, slave, dir).len() <= total(pdo_room(pdos_toward(offers_of(pdos), dir))),
        pdos_toward(offers_of(pdos), dir).len() <= total(sync_room(syncs_toward(syncs, dir))),
    ensures
        direction_solution(reqs, slave, offers_of(pdos), syncs, dir) is Ok,
        forall|i: int|
            0 <= i < reqs.len() && reqs[i].slave == slave && reqs[i].direction == dir ==> carries(
                direction_solution(reqs, slave, offers_of(pdos), syncs, dir)->Ok_0,
                #[trigger] reqs[i].sdo,
            ),
{
    let items = required(reqs, slave, dir);
    lemma_pdos_toward_valid(pdos, dir);
    lemma_distinct(items);
    lemma_enough_room_resolves(items, pdos_toward(offers_of(pdos), dir), syncs_toward(syncs, dir));
    assert forall|i: int|
        0 <= i < reqs.len() && reqs[i].slave == slave && reqs[i].direction == dir implies carries(
        direction_solution(reqs, slave, offers_of(pdos), syncs, dir)->Ok_0,
        #[trigger] reqs[i].sdo,
    ) by {
        lemma_required_contains(reqs, slave, dir, i);
        let m = choose|m: int| 0 <= m < items.len() && items[m] == reqs[i].sdo;
        assert(items[m] == reqs[i].sdo);
    }
}

/// With room enough, in each direction, in the configurable PDOs of that
/// direction for the objects required in it, and in its sync managers for its
/// PDOs, resolving the slave succeeds, and every object required on the
/// slave is carried by a PDO of the mapping of its direction.
pub proof fn lemma_enough_room_slave_resolves(
    reqs: Seq<Requirement>,
    slave: u16,
    pdos: Seq<AvailablePdo>,
    syncs: Seq<AvailableSync>,
)
    requires
        required(reqs, slave, SyncDirection::Output).len() <= total(
            pdo_room(pdos_toward(offers_of(pdos), SyncDirection::Output)),
        ),
        pdos_toward(offers_of(pdos), SyncDirection::Output).len() <= total(
            sync_room(syncs_toward(syncs, SyncDirection::Output)),
        ),
        required(reqs, slave, SyncDirection::Input).len() <= total(
            pdo_room(pdos_toward(offers_of(pdos), SyncDirection::Input)),
        ),
        pdos_toward(offers_of(pdos), SyncDirection::Input).len() <= total(
            sync_room(syncs_toward(syncs, SyncDirection::Input)),
        ),
    ensures
        slave_solution(reqs, slave, offers_of(pdos), syncs) is Ok,
        forall|i: int|
            0 <= i < reqs.len() && reqs[i].slave == slave && reqs[i].direction
                == SyncDirection::Output ==> carries(
                slave_solution(reqs, slave, offers_of(pdos), syncs)->Ok_0.0,
                #[trigger] reqs[i].sdo,
            ),
        forall|i: int|
            0 <= i < reqs.len() && reqs[i].slave == slave && reqs[i].direction
                == SyncDirection::Input ==> carries(
                slave_solution(reqs, slave, offers_of(pdos), syncs)->Ok_0.1,
                #[trigger] reqs[i].sdo,
            ),
{
    lemma_direction_carried(reqs, slave, pdos, syncs, SyncDirection::Output);
    lemma_direction_carried(reqs, slave, pdos, syncs, SyncDirection::Input);
}

/// The first placement of `sdo` on `slave`, if any.
pub open spec fn placement_of(ps: Seq<Placement>, slave: u16, sdo: Sdo) -> Option<Placement> {
    if placement_pos(ps, slave, sdo) >= 0 {
        Some(ps[placement_pos(ps, slave, sdo)])
    } else {
        None
    }
}

proof fn lemma_placement_pos_concat(a: Seq<Placement>, b: Seq<Placement>, slave: u16, sdo: Sdo)
    ensures
        placement_pos(a + b, slave, sdo) == if placement_pos(a, slave, sdo) >= 0 {
            placement_pos(a, slave, sdo)
        } else if placement_pos(b, slave, sdo) >= 0 {
            a.len() + placement_pos(b, slave, sdo)
        } else {
            -1
        },
    decreases a.len(),
{
    if a.len() == 0 {
        assert(a + b =~= b);
    } else {
        assert((a + b).drop_first() =~= a.drop_first() + b);
        assert((a + b)[0] == a[0]);
        lemma_placement_pos_concat(a.drop_first(), b, slave, sdo);
    }
}

proof fn lemma_placement_of_concat(a: Seq<Placement>, b: Seq<Placement>, slave: u16, sdo: Sdo)
    ensures
        placement_of(a + b, slave, sdo) == if placement_of(a, slave, sdo) is Some {
            placement_of(a, slave, sdo)
        } else {
            placement_of(b, slave, sdo)
        },
{
    lemma_placement_pos_concat(a, b, slave, sdo);
    lemma_placement_pos(a, slave, sdo);
    lemma_placement_pos(b, slave, sdo);
}

proof fn lemma_placement_of_single(e: Placement, slave: u16, sdo: Sdo)
    ensures
        placement_of(seq![e], slave, sdo) == if e.slave == slave && e.sdo == sdo {
            Some(e)
        } else {
            None::<Placement>
        },
{
    let s = seq![e];
    assert(s[0] == e);
    assert(placement_pos(s.drop_first(), slave, sdo) == -1);
}

proof fn lemma_others_placement(ps: Seq<Placement>, slave: u16, other: u16, sdo: Sdo)
    requires
        other != slave,
    ensures
        placement_of(others(ps, slave), other, sdo) == placement_of(ps, other, sdo),
    decreases ps.len(),
{
    if ps.len() > 0 {
        let e = ps.last();
        let prev = ps.drop_last();
        lemma_others_placement(prev, slave, other, sdo);
        assert(ps =~= prev + seq![e]);
        lemma_placement_of_concat(prev, seq![e], other, sdo);
        lemma_placement_of_single(e, other, sdo);
        if e.slave != slave {
            assert(others(prev, slave).push(e) =~= others(prev, slave) + seq![e]);
            lemma_placement_of_concat(others(prev, slave), seq![e], other, sdo);
        }
    }
}

proof fn lemma_fresh_absent(slave: u16, items: Seq<Sdo>, other: u16, sdo: Sdo)
    requires
        other != slave,
    ensures
        placement_of(fresh(slave, items), other, sdo) is None,
{
    lemma_placement_absent(fresh(slave, items), other, sdo);
}

/// Resolving a slave leaves where the objects of every other slave are
/// located, hence their fields, as they were.
pub proof fn lemma_resolve_keeps_other_slaves(
    ps: Seq<Placement>,
    slave: u16,
    outs: Seq<Sdo>,
    ins: Seq<Sdo>,
    other: u16,
    sdo: Sdo,
)
    requires
        other != slave,
    ensures
        located(others(ps, slave) + fresh(slave, outs) + fresh(slave, ins), other, sdo) == located(
            ps,
            other,
            sdo,
        ),
{
    let kept = others(ps, slave);
    let after = kept + fresh(slave, outs) + fresh(slave, ins);
    lemma_others_placement(ps, slave, other, sdo);
    lemma_fresh_absent(slave, outs, other, sdo);
    lemma_fresh_absent(slave, ins, other, sdo);
    lemma_placement_of_concat(kept, fresh(slave, outs), other, sdo);
    lemma_placement_of_concat(kept + fresh(slave, outs), fresh(slave, ins), other, sdo);
    lemma_placement_pos(ps, other, sdo);
    lemma_placement_pos(after, other, sdo);
}

/// Resolution of a slave depends only on the objects required on it, in
/// each direction, and on the content of the inventory: the same inputs
/// always give the same mappings, or the same error.
pub proof fn lemma_slave_solution_deterministic(
    reqs1: Seq<Requirement>,
    reqs2: Seq<Requirement>,
    slave: u16,
    pdos1: Seq<AvailablePdo>,
    pdos2: Seq<AvailablePdo>,
    syncs: Seq<AvailableSync>,
)
    requires
        required(reqs1, slave, SyncDirection::Output) == required(reqs2, slave, SyncDirection::Output),
        required(reqs1, slave, SyncDirection::Input) == required(reqs2, slave, SyncDirection::Input),
        offers_of(pdos1) == offers_of(pdos2),
    ensures
        slave_solution(reqs1, slave, offers_of(pdos1), syncs) == slave_solution(
            reqs2,
            slave,
            offers_of(pdos2),
            syncs,
        ),
{
}

/// Placements after `record_offset` succeeded or failed on each of `recs` in turn.
pub open spec fn recorded(ps: Seq<Placement>, slave: u16, recs: Seq<(Sdo, Offset)>) -> Seq<Placement>
    decreases recs.len(),
{
    if recs.len() == 0 {
        ps
    } else {
        let prev = recorded(ps, slave, recs.drop_last());
        let (x, o) = recs.last();
        let p = placement_pos(prev, slave, x);
        if p >= 0 {
            prev.update(p, Placement { slave, sdo: x, offset: Some((o.byte, o.bit as u8)) })
        } else {
            prev
        }
    }
}

/// Two placement sequences place the same objects of the same slaves, position by position.
pub open spec fn same_keys(a: Seq<Placement>, b: Seq<Placement>) -> bool {
    &&& a.len() == b.len()
    &&& forall|i: int| 0 <= i < a.len() ==> #[trigger] a[i].slave == b[i].slave && a[i].sdo == b[i].sdo
}

proof fn lemma_same_keys_pos(a: Seq<Placement>, b: Seq<Placement>, slave: u16, sdo: Sdo)
    requires
        same_keys(a, b),
    ensures
        placement_pos(a, slave, sdo) == placement_pos(b, slave, sdo),
    decreases a.len(),
{
    if a.len() > 0 {
        assert(a[0].slave == b[0].slave && a[0].sdo == b[0].sdo);
        assert forall|i: int| 0 <= i < a.drop_first().len() implies #[trigger] a.drop_first()[i].slave
            == b.drop_first()[i].slave && a.drop_first()[i].sdo == b.drop_first()[i].sdo by {
            assert(a[i + 1].slave == b[i + 1].slave && a[i + 1].sdo == b[i + 1].sdo);
        }
        lemma_same_keys_pos(a.drop_first(), b.drop_first(), slave, sdo);
    }
}

proof fn lemma_recorded(ps: Seq<Placement>, slave: u16, recs: Seq<(Sdo, Offset)>, sdo: Sdo)
    requires
        placement_pos(ps, slave, sdo) >= 0,
    ensures
        same_keys(recorded(ps, slave, recs), ps),
        (exists|k: int| 0 <= k < recs.len() && #[trigger] recs[k].0 == sdo) ==> recorded(
            ps,
            slave,
            recs,
        )[placement_pos(ps, slave, sdo)].offset is Some,
    decreases recs.len(),
{
    lemma_placement_pos(ps, slave, sdo);
    if recs.len() > 0 {
        let prev = recorded(ps, slave, recs.drop_last());
        lemma_recorded(ps, slave, recs.drop_last(), sdo);
        let (x, o) = recs.last();
        let p = placement_pos(prev, slave, x);
        lemma_placement_pos(prev, slave, x);
        lemma_same_keys_pos(prev, ps, slave, sdo);
        let q = placement_pos(ps, slave, sdo);
        if exists|k: int| 0 <= k < recs.len() && #[trigger] recs[k].0 == sdo {
            let k = choose|k: int| 0 <= k < recs.len() && #[trigger] recs[k].0 == sdo;
            if k < recs.len() - 1 {
                assert(recs.drop_last()[k].0 == sdo);
            }
        }
        if p >= 0 && p == q {
            assert(prev[q].sdo == ps[q].sdo);
        }
    }
}

/// After a successful resolution of a slave, recording the offset that the
/// master gives each object required on it, in any order, locates every one
/// of them: each then has exactly one field.
pub proof fn lemma_all_requirements_located(
    before: Seq<Placement>,
    reqs: Seq<Requirement>,
    slave: u16,
    recs: Seq<(Sdo, Offset)>,
    i: int,
)
    requires
        0 <= i < reqs.len(),
        reqs[i].slave == slave,
        reqs[i].direction != SyncDirection::Invalid,
        exists|k: int| 0 <= k < recs.len() && #[trigger] recs[k].0 == reqs[i].sdo,
    ensures
        located(
            recorded(
                others(before, slave) + fresh(slave, required(reqs, slave, SyncDirection::Output))
                    + fresh(slave, required(reqs, slave, SyncDirection::Input)),
                slave,
                recs,
            ),
            slave,
            reqs[i].sdo,
        ) is Ok,
{
    let ps = others(before, slave) + fresh(slave, required(reqs, slave, SyncDirection::Output))
        + fresh(slave, required(reqs, slave, SyncDirection::Input));
    let sdo = reqs[i].sdo;
    lemma_resolved_requirements_placed(before, reqs, slave, i);
    lemma_recorded(ps, slave, recs, sdo);
    lemma_same_keys_pos(recorded(ps, slave, recs), ps, slave, sdo);
}

} // verus!
