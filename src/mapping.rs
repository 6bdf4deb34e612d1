use crate::types::{Sdo, SyncDirection};
use vstd::prelude::*;

verus! {

/// Error in mapping resolution.
#[derive(Debug, Clone, Copy, PartialEq, Eq, Structural)]
pub enum MappingError {
    /// There is not enough configurable PDOs to map these objects.
    LackOfPdo,
    /// There is not enough sync managers to transmit these PDOs.
    LackOfSync,
    /// A requirement was declared without a transfer direction.
    InvalidDirection,
    /// The object was never required, or its slave was never resolved.
    UnknownItem,
}

/// How the entries of a PDO offered by a slave are laid out.
#[derive(Debug)]
pub enum PdoLayout {
    /// The slave imposes these entries, in this order.
    Fixed(Vec<Sdo>),
    /// The PDO accepts any entries, up to this number.
    Configurable(usize),
}

/// A PDO that a slave offers.
#[derive(Debug)]
pub struct AvailablePdo {
    pub index: u16,
    pub direction: SyncDirection,
    pub layout: PdoLayout,
}

/// A sync manager that a slave offers, with the number of PDOs it can carry.
#[derive(Debug, Clone, Copy)]
pub struct AvailableSync {
    pub index: u8,
    pub direction: SyncDirection,
    pub capacity: usize,
}

/// The PDOs and sync managers that a slave offers, in inventory order.
#[derive(Debug)]
pub struct MappingInventory {
    pub pdos: Vec<AvailablePdo>,
    pub syncs: Vec<AvailableSync>,
}

/// A PDO chosen for transfer, with the objects it carries in order.
#[derive(Debug)]
pub struct PdoAssignment {
    pub index: u16,
    pub entries: Vec<Sdo>,
}

/// A sync manager with the PDOs assigned to it in order.
#[derive(Debug)]
pub struct SyncAssignment {
    pub index: u8,
    pub pdos: Vec<u16>,
}

/// The mapping of one transfer direction of a slave.
#[derive(Debug)]
pub struct Mapping {
    /// PDOs used, in inventory order, with their entries.
    pub pdos: Vec<PdoAssignment>,
    /// Every sync manager of the direction, in inventory order, with its PDOs.
    pub syncs: Vec<SyncAssignment>,
}

/// Mathematical content of an `AvailablePdo`: the entries it imposes, none
/// when configurable, and the number of entries it accepts, none when fixed.
pub struct PdoOffer {
    pub index: u16,
    pub direction: SyncDirection,
    pub fixed: Seq<Sdo>,
    pub room: nat,
}

impl View for AvailablePdo {
    type V = PdoOffer;

    open spec fn view(&self) -> PdoOffer {
        match self.layout {
            PdoLayout::Fixed(e) => PdoOffer {
                index: self.index,
                direction: self.direction,
                fixed: e@,
                room: 0,
            },
            PdoLayout::Configurable(c) => PdoOffer {
                index: self.index,
                direction: self.direction,
                fixed: seq![],
                room: c as nat,
            },
        }
    }
}

/// Views of the PDOs of an inventory.
pub open spec fn offers_of(pdos: Seq<AvailablePdo>) -> Seq<PdoOffer> {
    pdos.map_values(|p: AvailablePdo| p@)
}

/// Mathematical content of a `Mapping`.
pub struct MappingModel {
    pub pdos: Seq<(u16, Seq<Sdo>)>,
    pub syncs: Seq<(u8, Seq<u16>)>,
}

impl View for PdoAssignment {
    type V = (u16, Seq<Sdo>);

    open spec fn view(&self) -> (u16, Seq<Sdo>) {
        (self.index, self.entries@)
    }
}

impl View for SyncAssignment {
    type V = (u8, Seq<u16>);

    open spec fn view(&self) -> (u8, Seq<u16>) {
        (self.index, self.pdos@)
    }
}

impl View for Mapping {
    type V = MappingModel;

    open spec fn view(&self) -> MappingModel {
        MappingModel {
            pdos: self.pdos@.map_values(|p: PdoAssignment| p@),
            syncs: self.syncs@.map_values(|s: SyncAssignment| s@),
        }
    }
}

/// Number of requirements among the first `n` that are not reached yet and that `items` holds.
pub open spec fn newly_reached(reqs: Seq<Sdo>, reached: Seq<bool>, items: Seq<Sdo>, n: int) -> nat
    decreases n,
{
    if n <= 0 {
        0
    } else {
        newly_reached(reqs, reached, items, n - 1) + if !reached[n - 1] && items.contains(
            reqs[n - 1],
        ) {
            1nat
        } else {
            0nat
        }
    }
}

/// Number of requirements that `items` would newly reach.
pub open spec fn gain(reqs: Seq<Sdo>, reached: Seq<bool>, items: Seq<Sdo>) -> nat {
    newly_reached(reqs, reached, items, reached.len() as int)
}

/// Number of requirements among the first `n` that are not reached yet.
pub open spec fn unreached_count(reached: Seq<bool>, n: int) -> nat
    decreases n,
{
    if n <= 0 {
        0
    } else {
        unreached_count(reached, n - 1) + if !reached[n - 1] {
            1nat
        } else {
            0nat
        }
    }
}

/// Reached flags once `items` are transferred too.
pub open spec fn reach(reqs: Seq<Sdo>, reached: Seq<bool>, items: Seq<Sdo>) -> Seq<bool> {
    Seq::new(reached.len(), |i: int| reached[i] || items.contains(reqs[i]))
}

/// Position, among the first `k` PDOs, of the first fixed PDO with the largest gain.
pub open spec fn best(reqs: Seq<Sdo>, reached: Seq<bool>, pdos: Seq<PdoOffer>, k: int) -> int
    decreases k,
{
    if k <= 1 {
        0
    } else {
        let b = best(reqs, reached, pdos, k - 1);
        if gain(reqs, reached, pdos[k - 1].fixed) > gain(
            reqs,
            reached,
            pdos[b].fixed,
        ) {
            k - 1
        } else {
            b
        }
    }
}

/// Reaching the entries of a PDO lowers the count of unreached requirements by its gain.
pub proof fn lemma_reach_count(reqs: Seq<Sdo>, reached: Seq<bool>, items: Seq<Sdo>, n: int)
    requires
        0 <= n <= reached.len(),
    ensures
        unreached_count(reach(reqs, reached, items), n) + newly_reached(reqs, reached, items, n)
            == unreached_count(reached, n),
    decreases n,
{
    if n > 0 {
        lemma_reach_count(reqs, reached, items, n - 1);
    }
}

/// First phase: while some fixed PDO reaches a requirement not reached yet,
/// pick the first of those that reach the most, and reach its entries.
/// Returns the final reached flags and the picked positions in picking order.
pub open spec fn select_fixed(
    reqs: Seq<Sdo>,
    pdos: Seq<PdoOffer>,
    reached: Seq<bool>,
    picks: Seq<int>,
) -> (Seq<bool>, Seq<int>)
    decreases unreached_count(reached, reached.len() as int),
{
    if pdos.len() == 0 {
        (reached, picks)
    } else {
        let b = best(reqs, reached, pdos, pdos.len() as int);
        let items = pdos[b].fixed;
        if gain(reqs, reached, items) == 0 {
            (reached, picks)
        } else {
            proof {
                lemma_reach_count(reqs, reached, items, reached.len() as int);
            }
            select_fixed(reqs, pdos, reach(reqs, reached, items), picks.push(b))
        }
    }
}

/// Requirements among the first `n` that are left unreached, in order.
pub open spec fn still_pending(reqs: Seq<Sdo>, reached: Seq<bool>, n: int) -> Seq<Sdo>
    decreases n,
{
    if n <= 0 {
        seq![]
    } else if !reached[n - 1] {
        still_pending(reqs, reached, n - 1).push(reqs[n - 1])
    } else {
        still_pending(reqs, reached, n - 1)
    }
}

/// `items` dealt in order into bins of the given capacities, each filled before the next.
pub open spec fn deal<A>(items: Seq<A>, caps: Seq<nat>) -> Seq<Seq<A>>
    decreases caps.len(),
{
    if caps.len() == 0 {
        seq![]
    } else {
        let k = if caps[0] <= items.len() {
            caps[0] as int
        } else {
            items.len() as int
        };
        seq![items.take(k)] + deal(items.skip(k), caps.drop_first())
    }
}

/// Sum of capacities.
pub open spec fn total(caps: Seq<nat>) -> nat
    decreases caps.len(),
{
    if caps.len() == 0 {
        0
    } else {
        total(caps.drop_last()) + caps.last()
    }
}

/// Capacities of the configurable PDOs, zero for the fixed ones.
pub open spec fn pdo_room(pdos: Seq<PdoOffer>) -> Seq<nat> {
    pdos.map_values(|p: PdoOffer| p.room)
}

/// Capacities of the sync managers.
pub open spec fn sync_room(syncs: Seq<AvailableSync>) -> Seq<nat> {
    syncs.map_values(|s: AvailableSync| s.capacity as nat)
}

/// Outcome of the first phase on requirements that are all unreached at first.
pub open spec fn first_phase(reqs: Seq<Sdo>, pdos: Seq<PdoOffer>) -> (Seq<bool>, Seq<int>) {
    select_fixed(reqs, pdos, Seq::new(reqs.len(), |i: int| false), seq![])
}

/// Requirements that no picked fixed PDO reaches, in requirement order.
pub open spec fn leftovers(reqs: Seq<Sdo>, pdos: Seq<PdoOffer>) -> Seq<Sdo> {
    still_pending(reqs, first_phase(reqs, pdos).0, reqs.len() as int)
}

/// Second phase: the leftovers dealt into the configurable PDOs.
pub open spec fn filling(reqs: Seq<Sdo>, pdos: Seq<PdoOffer>) -> Seq<Seq<Sdo>> {
    deal(leftovers(reqs, pdos), pdo_room(pdos))
}

/// The PDO at position `i` is used: picked in the first phase or given an entry in the second.
pub open spec fn used(reqs: Seq<Sdo>, pdos: Seq<PdoOffer>, i: int) -> bool {
    first_phase(reqs, pdos).1.contains(i) || filling(reqs, pdos)[i].len() > 0
}

/// Entries that the PDO at position `i` carries once used.
pub open spec fn contents(reqs: Seq<Sdo>, pdos: Seq<PdoOffer>, i: int) -> Seq<Sdo> {
    if first_phase(reqs, pdos).1.contains(i) {
        pdos[i].fixed
    } else {
        filling(reqs, pdos)[i]
    }
}

/// Used PDOs among the first `n`, in inventory order, with their entries.
pub open spec fn used_pdos(reqs: Seq<Sdo>, pdos: Seq<PdoOffer>, n: int) -> Seq<(u16, Seq<Sdo>)>
    decreases n,
{
    if n <= 0 {
        seq![]
    } else if used(reqs, pdos, n - 1) {
        used_pdos(reqs, pdos, n - 1).push((pdos[n - 1].index, contents(reqs, pdos, n - 1)))
    } else {
        used_pdos(reqs, pdos, n - 1)
    }
}

/// The mapping of one direction for requirements `reqs` without repeats,
/// from `pdos` and `syncs`, the inventory of that direction.
pub open spec fn set_solution(reqs: Seq<Sdo>, pdos: Seq<PdoOffer>, syncs: Seq<AvailableSync>) -> Result<
    MappingModel,
    MappingError,
> {
    let chosen = used_pdos(reqs, pdos, pdos.len() as int);
    let ids = chosen.map_values(|p: (u16, Seq<Sdo>)| p.0);
    if leftovers(reqs, pdos).len() > total(pdo_room(pdos)) {
        Err(MappingError::LackOfPdo)
    } else if chosen.len() > total(sync_room(syncs)) {
        Err(MappingError::LackOfSync)
    } else {
        let bins = deal(ids, sync_room(syncs));
        Ok(
            MappingModel {
                pdos: chosen,
                syncs: Seq::new(syncs.len(), |j: int| (syncs[j].index, bins[j])),
            },
        )
    }
}

/// The requirements in order of first occurrence, each once.
pub open spec fn distinct(reqs: Seq<Sdo>) -> Seq<Sdo>
    decreases reqs.len(),
{
    if reqs.len() == 0 {
        seq![]
    } else if distinct(reqs.drop_last()).contains(reqs.last()) {
        distinct(reqs.drop_last())
    } else {
        distinct(reqs.drop_last()).push(reqs.last())
    }
}

/// The mapping of one direction: `reqs` are the required objects, a repeat
/// counting as one, `pdos` and `syncs` the inventory of that direction.
pub open spec fn solution(reqs: Seq<Sdo>, pdos: Seq<PdoOffer>, syncs: Seq<AvailableSync>) -> Result<
    MappingModel,
    MappingError,
> {
    set_solution(distinct(reqs), pdos, syncs)
}

/// Whether `items` holds `x`.
fn holds(items: &Vec<Sdo>, x: Sdo) -> (r: bool)
    ensures
        r == items@.contains(x),
{
    let mut i: usize = 0;
    while i < items.len()
        invariant
            i <= items@.len(),
            forall|j: int| 0 <= j < i ==> items@[j] != x,
        decreases items@.len() - i,
    {
        if items[i] == x {
            assert(items@[i as int] == x);
            return true;
        }
        i += 1;
    }
    false
}

/// Number of requirements that `items` would newly reach.
fn gain_of(reqs: &Vec<Sdo>, reached: &Vec<bool>, items: &Vec<Sdo>) -> (r: usize)
    requires
        reached@.len() == reqs@.len(),
    ensures
        r == gain(reqs@, reached@, items@),
{
    let mut count: usize = 0;
    let mut i: usize = 0;
    while i < reached.len()
        invariant
            i <= reached@.len() == reqs@.len(),
            count == newly_reached(reqs@, reached@, items@, i as int),
            count <= i,
        decreases reached@.len() - i,
    {
        if !reached[i] && holds(items, reqs[i]) {
            count += 1;
        }
        i += 1;
    }
    count
}

proof fn lemma_no_gain(reqs: Seq<Sdo>, reached: Seq<bool>, n: int)
    ensures
        newly_reached(reqs, reached, seq![], n) == 0,
    decreases n,
{
    if n > 0 {
        lemma_no_gain(reqs, reached, n - 1);
    }
}

/// Number of requirements that the entries imposed by `p` would newly reach.
fn pdo_gain(reqs: &Vec<Sdo>, reached: &Vec<bool>, p: &AvailablePdo) -> (r: usize)
    requires
        reached@.len() == reqs@.len(),
    ensures
        r == gain(reqs@, reached@, p@.fixed),
{
    match &p.layout {
        PdoLayout::Fixed(e) => gain_of(reqs, reached, e),
        PdoLayout::Configurable(_) => {
            proof {
                lemma_no_gain(reqs@, reached@, reached@.len() as int);
            }
            0
        },
    }
}

/// Position of the first PDO with the largest gain.
fn best_pdo(reqs: &Vec<Sdo>, reached: &Vec<bool>, pdos: &Vec<AvailablePdo>) -> (r: (usize, usize))
    requires
        reached@.len() == reqs@.len(),
        pdos@.len() > 0,
    ensures
        r.0 == best(reqs@, reached@, offers_of(pdos@), pdos@.len() as int),
        r.0 < pdos@.len(),
        r.1 == gain(reqs@, reached@, pdos@[r.0 as int]@.fixed),
{
    let ghost offers = offers_of(pdos@);
    let mut b: usize = 0;
    let mut gb = pdo_gain(reqs, reached, &pdos[0]);
    let mut k: usize = 1;
    while k < pdos.len()
        invariant
            reached@.len() == reqs@.len(),
            offers == offers_of(pdos@),
            1 <= k <= pdos@.len(),
            b < k,
            b == best(reqs@, reached@, offers, k as int),
            gb == gain(reqs@, reached@, pdos@[b as int]@.fixed),
        decreases pdos@.len() - k,
    {
        let g = pdo_gain(reqs, reached, &pdos[k]);
        if g > gb {
            b = k;
            gb = g;
        }
        k += 1;
    }
    (b, gb)
}

/// Marks reached the requirements that the entries imposed by `p` hold.
fn reach_pdo(reqs: &Vec<Sdo>, reached: &mut Vec<bool>, p: &AvailablePdo)
    requires
        old(reached)@.len() == reqs@.len(),
    ensures
        final(reached)@ == reach(reqs@, old(reached)@, p@.fixed),
{
    if let PdoLayout::Fixed(e) = &p.layout {
        let mut i: usize = 0;
        while i < reached.len()
            invariant
                reached@.len() == old(reached)@.len() == reqs@.len(),
                i <= reached@.len(),
                forall|j: int| 0 <= j < i ==> reached@[j] == (old(reached)@[j] || e@.contains(reqs@[j])),
                forall|j: int| i <= j < reached@.len() ==> reached@[j] == old(reached)@[j],
            decreases reached@.len() - i,
        {
            if !reached[i] && holds(e, reqs[i]) {
                reached.set(i, true);
            }
            i += 1;
        }
        assert(reached@ =~= reach(reqs@, old(reached)@, p@.fixed));
    } else {
        assert(reached@ =~= reach(reqs@, old(reached)@, p@.fixed));
    }
}

/// First phase: reached flags and picked positions, in picking order.
fn first_phase_exec(reqs: &Vec<Sdo>, pdos: &Vec<AvailablePdo>) -> (r: (Vec<bool>, Vec<usize>))
    ensures
        first_phase(reqs@, offers_of(pdos@)) == (r.0@, r.1@.map_values(
            |x: usize| x as int,
        )),
        r.0@.len() == reqs@.len(),
        forall|k: int| 0 <= k < r.1@.len() ==> r.1@[k] < pdos@.len(),
{
    let ghost offers = offers_of(pdos@);
    let mut reached: Vec<bool> = Vec::new();
    let mut i: usize = 0;
    while i < reqs.len()
        invariant
            i <= reqs@.len(),
            reached@ == Seq::new(i as nat, |j: int| false),
        decreases reqs@.len() - i,
    {
        reached.push(false);
        i += 1;
        assert(reached@ =~= Seq::new(i as nat, |j: int| false));
    }
    let mut picks: Vec<usize> = Vec::new();
    assert(picks@.map_values(|x: usize| x as int) =~= seq![]);
    if pdos.len() == 0 {
        return (reached, picks);
    }
    loop
        invariant
            reached@.len() == reqs@.len(),
            offers == offers_of(pdos@),
            pdos@.len() > 0,
            select_fixed(reqs@, offers, reached@, picks@.map_values(|x: usize| x as int))
                == first_phase(reqs@, offers),
            forall|k: int| 0 <= k < picks@.len() ==> picks@[k] < pdos@.len(),
        decreases unreached_count(reached@, reached@.len() as int),
    {
        let (b, g) = best_pdo(reqs, &reached, pdos);
        if g == 0 {
            return (reached, picks);
        }
        let ghost before = reached@;
        proof {
            lemma_reach_count(reqs@, before, offers[b as int].fixed, before.len() as int);
        }
        reach_pdo(reqs, &mut reached, &pdos[b]);
        let ghost old_picks = picks@;
        picks.push(b);
        assert(picks@.map_values(|x: usize| x as int) =~= old_picks.map_values(|x: usize| x as int).push(b as int));
    }
}

/// Requirements left unreached, in order.
fn pending_exec(reqs: &Vec<Sdo>, reached: &Vec<bool>) -> (r: Vec<Sdo>)
    requires
        reached@.len() == reqs@.len(),
    ensures
        r@ == still_pending(reqs@, reached@, reqs@.len() as int),
{
    let mut rest: Vec<Sdo> = Vec::new();
    let mut i: usize = 0;
    while i < reqs.len()
        invariant
            i <= reqs@.len() == reached@.len(),
            rest@ == still_pending(reqs@, reached@, i as int),
        decreases reqs@.len() - i,
    {
        if !reached[i] {
            rest.push(reqs[i]);
        }
        i += 1;
    }
    rest
}

/// The items from `from` up to `to`.
pub(crate) fn copy_range<T: Copy>(items: &Vec<T>, from: usize, to: usize) -> (r: Vec<T>)
    requires
        from <= to <= items@.len(),
    ensures
        r@ == items@.subrange(from as int, to as int),
{
    let mut out: Vec<T> = Vec::new();
    let mut i: usize = from;
    while i < to
        invariant
            from <= i <= to <= items@.len(),
            out@ == items@.subrange(from as int, i as int),
        decreases to - i,
    {
        out.push(items[i]);
        i += 1;
        assert(out@ =~= items@.subrange(from as int, i as int));
    }
    out
}

/// Capacities as natural numbers.
pub open spec fn caps_of(caps: Seq<usize>) -> Seq<nat> {
    caps.map_values(|c: usize| c as nat)
}

/// Views of a sequence of vectors.
pub open spec fn views_of<T>(bins: Seq<Vec<T>>) -> Seq<Seq<T>> {
    bins.map_values(|b: Vec<T>| b@)
}

/// Dealing yields one bin per capacity.
pub proof fn lemma_deal_len<A>(items: Seq<A>, caps: Seq<nat>)
    ensures
        deal(items, caps).len() == caps.len(),
    decreases caps.len(),
{
    if caps.len() > 0 {
        lemma_deal_len(items.skip(if caps[0] <= items.len() { caps[0] as int } else { items.len() as int }), caps.drop_first());
    }
}

/// Deals `items` in order into bins of capacities `caps`; the flag tells
/// whether every item found a place.
fn deal_exec<T: Copy>(items: &Vec<T>, caps: &Vec<usize>) -> (r: (Vec<Vec<T>>, bool))
    ensures
        views_of(r.0@) == deal(items@, caps_of(caps@)),
        r.1 == (items@.len() <= total(caps_of(caps@))),
{
    let ghost n = caps_of(caps@);
    let mut bins: Vec<Vec<T>> = Vec::new();
    let mut pos: usize = 0;
    let mut j: usize = 0;
    proof {
        assert(items@.skip(0) =~= items@);
        assert(n.skip(0) =~= n);
        assert(views_of(bins@) + deal(items@, n) =~= deal(items@, n));
    }
    while j < caps.len()
        invariant
            n == caps_of(caps@),
            j <= caps@.len(),
            pos <= items@.len(),
            views_of(bins@) + deal(items@.skip(pos as int), n.skip(j as int)) == deal(items@, n),
            pos == (if total(n.take(j as int)) <= items@.len() {
                total(n.take(j as int))
            } else {
                items@.len()
            }),
        decreases caps@.len() - j,
    {
        let left = items.len() - pos;
        let k = if caps[j] <= left {
            caps[j]
        } else {
            left
        };
        let bin = copy_range(items, pos, pos + k);
        proof {
            let rest = items@.skip(pos as int);
            assert(n.skip(j as int)[0] == caps@[j as int] as nat);
            assert(rest.take(k as int) =~= bin@);
            assert(rest.skip(k as int) =~= items@.skip(pos + k));
            assert(n.skip(j as int).drop_first() =~= n.skip(j + 1));
            assert(n.take(j + 1).drop_last() =~= n.take(j as int));
            assert(views_of(bins@.push(bin)) =~= views_of(bins@).push(bin@));
            assert(seq![bin@] + deal(items@.skip(pos + k), n.skip(j + 1)) == deal(rest, n.skip(j as int)));
            assert(views_of(bins@).push(bin@) + deal(items@.skip(pos + k), n.skip(j + 1)) =~= views_of(bins@) + (seq![bin@] + deal(items@.skip(pos + k), n.skip(j + 1))));
        }
        bins.push(bin);
        pos += k;
        j += 1;
    }
    proof {
        assert(n.take(j as int) =~= n);
        assert(views_of(bins@) + deal(items@.skip(pos as int), n.skip(j as int)) =~= views_of(bins@));
    }
    (bins, pos == items.len())
}

/// Whether `picks` holds position `i`.
fn picked(picks: &Vec<usize>, i: usize) -> (r: bool)
    ensures
        r == picks@.map_values(|x: usize| x as int).contains(i as int),
{
    let ghost ints = picks@.map_values(|x: usize| x as int);
    let mut k: usize = 0;
    while k < picks.len()
        invariant
            ints == picks@.map_values(|x: usize| x as int),
            k <= picks@.len(),
            forall|j: int| 0 <= j < k ==> picks@[j] != i,
        decreases picks@.len() - k,
    {
        if picks[k] == i {
            assert(ints[k as int] == i as int);
            return true;
        }
        k += 1;
    }
    assert forall|j: int| 0 <= j < ints.len() implies ints[j] != i as int by {
        assert(picks@[j] != i);
    }
    false
}

/// The entries that `p` imposes.
fn fixed_copy(p: &AvailablePdo) -> (r: Vec<Sdo>)
    ensures
        r@ == p@.fixed,
{
    match &p.layout {
        PdoLayout::Fixed(e) => copy_range(e, 0, e.len()),
        PdoLayout::Configurable(_) => Vec::new(),
    }
}

/// Mathematical content of the outcome of `solve`.
pub open spec fn outcome(r: Result<Mapping, MappingError>) -> Result<MappingModel, MappingError> {
    match r {
        Ok(m) => Ok(m@),
        Err(e) => Err(e),
    }
}

/// Resolves the mapping of one direction for requirements without repeats.
fn solve_set(reqs: &Vec<Sdo>, pdos: &Vec<AvailablePdo>, syncs: &Vec<AvailableSync>) -> (r: Result<
    Mapping,
    MappingError,
>)
    ensures
        outcome(r) == set_solution(reqs@, offers_of(pdos@), syncs@),
{
    let ghost offers = offers_of(pdos@);
    let (reached, picks) = first_phase_exec(reqs, pdos);
    let rest = pending_exec(reqs, &reached);
    let mut room: Vec<usize> = Vec::new();
    let mut i: usize = 0;
    while i < pdos.len()
        invariant
            offers == offers_of(pdos@),
            i <= pdos@.len(),
            caps_of(room@) == pdo_room(offers).take(i as int),
        decreases pdos@.len() - i,
    {
        let c = match &pdos[i].layout {
            PdoLayout::Fixed(_) => 0,
            PdoLayout::Configurable(c) => *c,
        };
        assert(offers[i as int] == pdos@[i as int]@);
        assert(c as nat == pdo_room(offers)[i as int]);
        let ghost before = room@;
        room.push(c);
        assert(caps_of(room@) =~= caps_of(before).push(c as nat));
        i += 1;
        assert(caps_of(room@) =~= pdo_room(offers).take(i as int));
    }
    assert(pdo_room(offers).take(i as int) =~= pdo_room(offers));
    let (fill, fits) = deal_exec(&rest, &room);
    if !fits {
        return Err(MappingError::LackOfPdo);
    }
    let ghost phase = first_phase(reqs@, offers);
    assert(filling(reqs@, offers) == views_of(fill@));
    proof {
        lemma_deal_len(rest@, caps_of(room@));
    }
    let mut chosen: Vec<PdoAssignment> = Vec::new();
    let mut ids: Vec<u16> = Vec::new();
    let mut i: usize = 0;
    while i < pdos.len()
        invariant
            offers == offers_of(pdos@),
            phase == first_phase(reqs@, offers),
            phase == (reached@, picks@.map_values(|x: usize| x as int)),
            filling(reqs@, offers) == views_of(fill@),
            fill@.len() == pdos@.len(),
            i <= pdos@.len(),
            chosen@.map_values(|p: PdoAssignment| p@) == used_pdos(reqs@, offers, i as int),
            ids@ == used_pdos(reqs@, offers, i as int).map_values(|p: (u16, Seq<Sdo>)| p.0),
        decreases pdos@.len() - i,
    {
        let is_picked = picked(&picks, i);
        if is_picked || fill[i].len() > 0 {
            let entries = if is_picked {
                fixed_copy(&pdos[i])
            } else {
                copy_range(&fill[i], 0, fill[i].len())
            };
            proof {
                assert(fill@[i as int]@.subrange(0, fill@[i as int]@.len() as int) =~= fill@[i as int]@);
            }
            let ghost before = chosen@;
            let ghost before_ids = ids@;
            let a = PdoAssignment { index: pdos[i].index, entries };
            chosen.push(a);
            ids.push(pdos[i].index);
            proof {
                assert(chosen@.map_values(|p: PdoAssignment| p@) =~= before.map_values(|p: PdoAssignment| p@).push(a@));
                assert(ids@ =~= used_pdos(reqs@, offers, i + 1).map_values(|p: (u16, Seq<Sdo>)| p.0));
            }
        }
        i += 1;
    }
    let mut sroom: Vec<usize> = Vec::new();
    let mut j: usize = 0;
    while j < syncs.len()
        invariant
            j <= syncs@.len(),
            caps_of(sroom@) == sync_room(syncs@).take(j as int),
        decreases syncs@.len() - j,
    {
        let ghost before = sroom@;
        sroom.push(syncs[j].capacity);
        assert(caps_of(sroom@) =~= caps_of(before).push(syncs@[j as int].capacity as nat));
        j += 1;
        assert(caps_of(sroom@) =~= sync_room(syncs@).take(j as int));
    }
    assert(sync_room(syncs@).take(j as int) =~= sync_room(syncs@));
    let (bins, fits) = deal_exec(&ids, &sroom);
    if !fits {
        return Err(MappingError::LackOfSync);
    }
    proof {
        lemma_deal_len(ids@, caps_of(sroom@));
    }
    let mut assigned: Vec<SyncAssignment> = Vec::new();
    let mut j: usize = 0;
    while j < syncs.len()
        invariant
            j <= syncs@.len(),
            bins@.len() == syncs@.len(),
            views_of(bins@) == deal(ids@, sync_room(syncs@)),
            assigned@.map_values(|s: SyncAssignment| s@) == Seq::new(
                j as nat,
                |k: int| (syncs@[k].index, views_of(bins@)[k]),
            ),
        decreases syncs@.len() - j,
    {
        let a = SyncAssignment { index: syncs[j].index, pdos: copy_range(&bins[j], 0, bins[j].len()) };
        proof {
            assert(bins@[j as int]@.subrange(0, bins@[j as int]@.len() as int) =~= bins@[j as int]@);
        }
        assert(a@ == (syncs@[j as int].index, views_of(bins@)[j as int]));
        let ghost before = assigned@;
        assigned.push(a);
        assert(assigned@.map_values(|s: SyncAssignment| s@) =~= before.map_values(|s: SyncAssignment| s@).push(a@));
        j += 1;
        proof {
            assert(assigned@.map_values(|s: SyncAssignment| s@) =~= Seq::new(
                j as nat,
                |k: int| (syncs@[k].index, views_of(bins@)[k]),
            ));
        }
    }
    let m = Mapping { pdos: chosen, syncs: assigned };
    assert(m@.syncs =~= set_solution(reqs@, offers, syncs@)->Ok_0.syncs);
    Ok(m)
}

/// Resolves the mapping of one transfer direction of a slave.
///
/// `reqs` are the objects to transfer, a repeat counting as one, `pdos` and `syncs` the PDOs and sync
/// managers that the slave offers for that direction, in inventory order.
/// Fixed PDOs are picked first, each time the first of those that reach the
/// most requirements not reached yet, until none reaches any; the
/// requirements left are then dealt, in order, into the configurable PDOs,
/// each filled before the next; the used PDOs are finally dealt, in
/// inventory order, into the sync managers in the same way.
pub fn solve(reqs: &Vec<Sdo>, pdos: &Vec<AvailablePdo>, syncs: &Vec<AvailableSync>) -> (r: Result<
    Mapping,
    MappingError,
>)
    ensures
        outcome(r) == solution(reqs@, offers_of(pdos@), syncs@),
{
    let set = distinct_exec(reqs);
    solve_set(&set, pdos, syncs)
}

/// The requirements in order of first occurrence, each once.
fn distinct_exec(reqs: &Vec<Sdo>) -> (r: Vec<Sdo>)
    ensures
        r@ == distinct(reqs@),
{
    let mut out: Vec<Sdo> = Vec::new();
    let mut i: usize = 0;
    assert(reqs@.take(0).len() == 0);
    while i < reqs.len()
        invariant
            i <= reqs@.len(),
            out@ == distinct(reqs@.take(i as int)),
        decreases reqs@.len() - i,
    {
        assert(reqs@.take(i + 1).drop_last() =~= reqs@.take(i as int));
        if !holds(&out, reqs[i]) {
            out.push(reqs[i]);
        }
        i += 1;
    }
    assert(reqs@.take(i as int) =~= reqs@);
    out
}

/// Reached flags after the PDOs at positions `picks` are reached in turn, from `init`.
pub open spec fn reached_by(reqs: Seq<Sdo>, pdos: Seq<PdoOffer>, init: Seq<bool>, picks: Seq<int>) -> Seq<bool>
    decreases picks.len(),
{
    if picks.len() == 0 {
        init
    } else {
        reach(reqs, reached_by(reqs, pdos, init, picks.drop_last()), pdos[picks.last()].fixed)
    }
}

/// Every PDO in `picks` reached, when it was picked, a requirement that none
/// picked before it had reached.
pub open spec fn picks_reach_new(reqs: Seq<Sdo>, pdos: Seq<PdoOffer>, init: Seq<bool>, picks: Seq<int>) -> bool {
    forall|k: int|
        0 <= k < picks.len() ==> 0 <= #[trigger] picks[k] < pdos.len() && gain(
            reqs,
            reached_by(reqs, pdos, init, picks.take(k)),
            pdos[picks[k]].fixed,
        ) > 0
}

proof fn lemma_best_range(reqs: Seq<Sdo>, reached: Seq<bool>, pdos: Seq<PdoOffer>, k: int)
    requires
        k >= 1,
    ensures
        0 <= best(reqs, reached, pdos, k) < k,
    decreases k,
{
    if k > 1 {
        lemma_best_range(reqs, reached, pdos, k - 1);
    }
}

#[verifier::rlimit(50)]
proof fn lemma_select_fixed(reqs: Seq<Sdo>, pdos: Seq<PdoOffer>, init: Seq<bool>, reached: Seq<bool>, picks: Seq<int>)
    requires
        reached == reached_by(reqs, pdos, init, picks),
        reached.len() == init.len(),
        picks_reach_new(reqs, pdos, init, picks),
    ensures
        select_fixed(reqs, pdos, reached, picks).0 == reached_by(
            reqs,
            pdos,
            init,
            select_fixed(reqs, pdos, reached, picks).1,
        ),
        picks_reach_new(reqs, pdos, init, select_fixed(reqs, pdos, reached, picks).1),
    decreases unreached_count(reached, reached.len() as int),
{
    if pdos.len() > 0 {
        let b = best(reqs, reached, pdos, pdos.len() as int);
        let items = pdos[b].fixed;
        if gain(reqs, reached, items) > 0 {
            lemma_best_range(reqs, reached, pdos, pdos.len() as int);
            lemma_reach_count(reqs, reached, items, reached.len() as int);
            let next = picks.push(b);
            assert(next.drop_last() =~= picks);
            assert forall|k: int| 0 <= k < next.len() implies 0 <= #[trigger] next[k] < pdos.len()
                && gain(reqs, reached_by(reqs, pdos, init, next.take(k)), pdos[next[k]].fixed) > 0 by {
                if k < picks.len() {
                    assert(next.take(k) =~= picks.take(k));
                    assert(next[k] == picks[k]);
                } else {
                    assert(next.take(k) =~= picks);
                }
            }
            lemma_select_fixed(reqs, pdos, init, reach(reqs, reached, items), next);
        }
    }
}

proof fn lemma_reached_by(reqs: Seq<Sdo>, pdos: Seq<PdoOffer>, init: Seq<bool>, picks: Seq<int>, i: int)
    requires
        0 <= i < init.len(),
    ensures
        reached_by(reqs, pdos, init, picks).len() == init.len(),
        reached_by(reqs, pdos, init, picks)[i] <==> (init[i] || exists|k: int|
            0 <= k < picks.len() && #[trigger] pdos[picks[k]].fixed.contains(reqs[i])),
    decreases picks.len(),
{
    if picks.len() > 0 {
        lemma_reached_by(reqs, pdos, init, picks.drop_last(), i);
        if exists|k: int| 0 <= k < picks.len() && #[trigger] pdos[picks[k]].fixed.contains(reqs[i]) {
            let k = choose|k: int| 0 <= k < picks.len() && #[trigger] pdos[picks[k]].fixed.contains(reqs[i]);
            if k < picks.len() - 1 {
                assert(picks.drop_last()[k] == picks[k]);
            }
        }
        if exists|k: int| 0 <= k < picks.len() - 1 && #[trigger] pdos[picks.drop_last()[k]].fixed.contains(reqs[i]) {
            let k = choose|k: int| 0 <= k < picks.len() - 1 && #[trigger] pdos[picks.drop_last()[k]].fixed.contains(reqs[i]);
            assert(pdos[picks[k]].fixed.contains(reqs[i]));
        }
    }
}

/// Every PDO view imposes no entry or accepts none: it is fixed or configurable.
pub open spec fn offers_valid(pdos: Seq<PdoOffer>) -> bool {
    forall|i: int| 0 <= i < pdos.len() ==> #[trigger] pdos[i].fixed.len() == 0 || pdos[i].room == 0
}

/// The views of PDOs are valid.
pub proof fn lemma_offers_valid(pdos: Seq<AvailablePdo>)
    ensures
        offers_valid(offers_of(pdos)),
{
}

proof fn lemma_picks_gain(reqs: Seq<Sdo>, pdos: Seq<PdoOffer>, k: int)
    requires
        0 <= k < first_phase(reqs, pdos).1.len(),
    ensures
        ({
            let picks = first_phase(reqs, pdos).1;
            let before = reached_by(reqs, pdos, Seq::new(reqs.len(), |i: int| false), picks.take(k));
            &&& 0 <= picks[k] < pdos.len()
            &&& gain(reqs, before, pdos[picks[k]].fixed) > 0
            &&& pdos[picks[k]].fixed.len() > 0
        }),
{
    let init = Seq::new(reqs.len(), |i: int| false);
    assert(picks_reach_new(reqs, pdos, init, seq![]));
    lemma_select_fixed(reqs, pdos, init, init, seq![]);
    let picks = first_phase(reqs, pdos).1;
    assert(0 <= picks[k] < pdos.len());
    let before = reached_by(reqs, pdos, init, picks.take(k));
    if pdos[picks[k]].fixed.len() == 0 {
        assert(pdos[picks[k]].fixed =~= seq![]);
        lemma_no_gain(reqs, before, before.len() as int);
    }
}

/// Each fixed PDO picked in the first phase reaches, at the time it is picked,
/// at least one requirement that no PDO picked before it reaches.
pub proof fn lemma_first_phase_picks_reach_new(reqs: Seq<Sdo>, pdos: Seq<AvailablePdo>, k: int)
    requires
        0 <= k < first_phase(reqs, offers_of(pdos)).1.len(),
    ensures
        ({
            let picks = first_phase(reqs, offers_of(pdos)).1;
            let before = reached_by(reqs, offers_of(pdos), Seq::new(reqs.len(), |i: int| false), picks.take(k));
            &&& 0 <= picks[k] < pdos.len()
            &&& pdos[picks[k]].layout is Fixed
            &&& gain(reqs, before, offers_of(pdos)[picks[k]].fixed) > 0
        }),
{
    lemma_picks_gain(reqs, offers_of(pdos), k);
}

proof fn lemma_pending(reqs: Seq<Sdo>, reached: Seq<bool>, n: int)
    requires
        0 <= n <= reached.len(),
    ensures
        still_pending(reqs, reached, n).len() <= n,
        forall|i: int| 0 <= i < n && !reached[i] ==> still_pending(reqs, reached, n).contains(#[trigger] reqs[i]),
    decreases n,
{
    if n > 0 {
        lemma_pending(reqs, reached, n - 1);
        let prev = still_pending(reqs, reached, n - 1);
        assert forall|i: int| 0 <= i < n && !reached[i] implies still_pending(reqs, reached, n).contains(#[trigger] reqs[i]) by {
            if i < n - 1 {
                let w = choose|w: int| 0 <= w < prev.len() && prev[w] == reqs[i];
                if !reached[n - 1] {
                    assert(prev.push(reqs[n - 1])[w] == reqs[i]);
                }
            } else {
                assert(prev.push(reqs[n - 1])[prev.len() as int] == reqs[i]);
            }
        }
    }
}

proof fn lemma_total_front(caps: Seq<nat>)
    requires
        caps.len() > 0,
    ensures
        total(caps) == caps[0] + total(caps.drop_first()),
    decreases caps.len(),
{
    if caps.len() > 1 {
        lemma_total_front(caps.drop_last());
        assert(caps.drop_first().drop_last() =~= caps.drop_last().drop_first());
        assert(total(caps.drop_first()) == total(caps.drop_first().drop_last())
            + caps.drop_first().last());
        assert(caps.drop_first().last() == caps.last());
        assert(caps.drop_last()[0] == caps[0]);
    } else {
        assert(caps.drop_first().len() == 0);
        assert(caps.drop_last().len() == 0);
        assert(total(caps.drop_first()) == 0);
        assert(total(caps.drop_last()) == 0);
        assert(caps.last() == caps[0]);
    }
}

proof fn lemma_deal_bounds<A>(items: Seq<A>, caps: Seq<nat>, j: int)
    requires
        0 <= j < caps.len(),
    ensures
        deal(items, caps).len() == caps.len(),
        deal(items, caps)[j].len() <= caps[j],
    decreases caps.len(),
{
    lemma_deal_len(items, caps);
    if j > 0 {
        let k = if caps[0] <= items.len() { caps[0] as int } else { items.len() as int };
        lemma_deal_bounds(items.skip(k), caps.drop_first(), j - 1);
    }
}

proof fn lemma_deal_covers<A>(items: Seq<A>, caps: Seq<nat>, m: int)
    requires
        items.len() <= total(caps),
        0 <= m < items.len(),
    ensures
        exists|j: int| 0 <= j < caps.len() && #[trigger] deal(items, caps)[j].contains(items[m]),
    decreases caps.len(),
{
    lemma_deal_len(items, caps);
    if caps.len() == 0 {
        assert(total(caps) == 0);
    } else {
        lemma_total_front(caps);
        let k = if caps[0] <= items.len() { caps[0] as int } else { items.len() as int };
        let d = deal(items, caps);
        assert(d == seq![items.take(k)] + deal(items.skip(k), caps.drop_first()));
        if m < k {
            assert(d[0] == items.take(k));
            assert(items.take(k)[m] == items[m]);
            assert(d[0].contains(items[m]));
        } else {
            let rest = items.skip(k);
            assert(rest[m - k] == items[m]);
            lemma_deal_covers(rest, caps.drop_first(), m - k);
            let j = choose|j: int| 0 <= j < caps.drop_first().len() && #[trigger] deal(rest, caps.drop_first())[j].contains(rest[m - k]);
            assert(d[j + 1] == deal(rest, caps.drop_first())[j]);
            assert(d[j + 1].contains(items[m]));
        }
    }
}

proof fn lemma_used_pdos(reqs: Seq<Sdo>, pdos: Seq<PdoOffer>, n: int)
    requires
        0 <= n <= pdos.len(),
    ensures
        used_pdos(reqs, pdos, n).len() <= n,
        forall|j: int| 0 <= j < n && used(reqs, pdos, j) ==> used_pdos(reqs, pdos, n).contains(
            (pdos[j].index, #[trigger] contents(reqs, pdos, j)),
        ),
    decreases n,
{
    if n > 0 {
        lemma_used_pdos(reqs, pdos, n - 1);
        let prev = used_pdos(reqs, pdos, n - 1);
        assert forall|j: int| 0 <= j < n && used(reqs, pdos, j) implies used_pdos(reqs, pdos, n).contains(
            (pdos[j].index, #[trigger] contents(reqs, pdos, j)),
        ) by {
            let e = (pdos[j].index, contents(reqs, pdos, j));
            if j < n - 1 {
                let w = choose|w: int| 0 <= w < prev.len() && prev[w] == e;
                if used(reqs, pdos, n - 1) {
                    assert(prev.push((pdos[n - 1].index, contents(reqs, pdos, n - 1)))[w] == e);
                }
            } else {
                assert(prev.push(e)[prev.len() as int] == e);
            }
        }
    }
}

/// Some PDO of the mapping carries `x`.
pub open spec fn carries(m: MappingModel, x: Sdo) -> bool {
    exists|k: int| 0 <= k < m.pdos.len() && #[trigger] m.pdos[k].1.contains(x)
}

/// Some sync manager of the mapping transmits the PDO of index `pdo`.
pub open spec fn transmits(m: MappingModel, pdo: u16) -> bool {
    exists|j: int| 0 <= j < m.syncs.len() && #[trigger] m.syncs[j].1.contains(pdo)
}

proof fn lemma_requirement_carried(reqs: Seq<Sdo>, pdos: Seq<PdoOffer>, i: int)
    requires
        offers_valid(pdos),
        leftovers(reqs, pdos).len() <= total(pdo_room(pdos)),
        0 <= i < reqs.len(),
    ensures
        exists|j: int| 0 <= j < pdos.len() && used(reqs, pdos, j) && #[trigger] contents(reqs, pdos, j).contains(reqs[i]),
{
    let init = Seq::new(reqs.len(), |i: int| false);
    let phase = first_phase(reqs, pdos);
    let reached = phase.0;
    let picks = phase.1;
    lemma_select_fixed(reqs, pdos, init, init, seq![]);
    lemma_reached_by(reqs, pdos, init, picks, i);
    let n = reqs.len() as int;
    lemma_pending(reqs, reached, n);
    let rest = leftovers(reqs, pdos);
    let fill = filling(reqs, pdos);
    lemma_deal_len(rest, pdo_room(pdos));
    if reached[i] {
        let kk = choose|kk: int| 0 <= kk < picks.len() && #[trigger] pdos[picks[kk]].fixed.contains(reqs[i]);
        let j = picks[kk];
        lemma_picks_gain(reqs, pdos, kk);
        assert(picks.contains(j));
        assert(used(reqs, pdos, j) && contents(reqs, pdos, j).contains(reqs[i]));
    } else {
        let m = choose|m: int| 0 <= m < rest.len() && rest[m] == reqs[i];
        lemma_deal_covers(rest, pdo_room(pdos), m);
        let j = choose|j: int| 0 <= j < pdo_room(pdos).len() && #[trigger] fill[j].contains(rest[m]);
        lemma_deal_bounds(rest, pdo_room(pdos), j);
        if picks.contains(j) {
            let kk = choose|kk: int| 0 <= kk < picks.len() && picks[kk] == j;
            lemma_picks_gain(reqs, pdos, kk);
            assert(pdos[j].room == 0);
        }
        assert(used(reqs, pdos, j) && contents(reqs, pdos, j).contains(reqs[i]));
    }
}

proof fn lemma_enough_room_set(reqs: Seq<Sdo>, pdos: Seq<PdoOffer>, syncs: Seq<AvailableSync>)
    requires
        offers_valid(pdos),
        reqs.len() <= total(pdo_room(pdos)),
        pdos.len() <= total(sync_room(syncs)),
    ensures
        set_solution(reqs, pdos, syncs) is Ok,
        forall|i: int|
            0 <= i < reqs.len() ==> carries(set_solution(reqs, pdos, syncs)->Ok_0, #[trigger] reqs[i]),
        forall|k: int|
            0 <= k < set_solution(reqs, pdos, syncs)->Ok_0.pdos.len() ==> transmits(
                set_solution(reqs, pdos, syncs)->Ok_0,
                #[trigger] set_solution(reqs, pdos, syncs)->Ok_0.pdos[k].0,
            ),
{
    let init = Seq::new(reqs.len(), |i: int| false);
    lemma_select_fixed(reqs, pdos, init, init, seq![]);
    if reqs.len() > 0 {
        lemma_reached_by(reqs, pdos, init, first_phase(reqs, pdos).1, 0);
    }
    lemma_pending(reqs, first_phase(reqs, pdos).0, reqs.len() as int);
    let rest = leftovers(reqs, pdos);
    lemma_used_pdos(reqs, pdos, pdos.len() as int);
    let chosen = used_pdos(reqs, pdos, pdos.len() as int);
    let ids = chosen.map_values(|p: (u16, Seq<Sdo>)| p.0);
    lemma_deal_len(rest, pdo_room(pdos));
    let sol = set_solution(reqs, pdos, syncs);
    assert forall|i: int| 0 <= i < reqs.len() implies carries(sol->Ok_0, #[trigger] reqs[i]) by {
        lemma_requirement_carried(reqs, pdos, i);
        let j = choose|j: int| 0 <= j < pdos.len() && used(reqs, pdos, j) && #[trigger] contents(reqs, pdos, j).contains(reqs[i]);
        let w = choose|w: int| 0 <= w < chosen.len() && chosen[w] == (pdos[j].index, contents(reqs, pdos, j));
        assert(sol->Ok_0.pdos[w].1.contains(reqs[i]));
    }
    let bins = deal(ids, sync_room(syncs));
    lemma_deal_len(ids, sync_room(syncs));
    assert forall|k: int| 0 <= k < sol->Ok_0.pdos.len() implies transmits(sol->Ok_0, #[trigger] sol->Ok_0.pdos[k].0) by {
        lemma_deal_covers(ids, sync_room(syncs), k);
        let j = choose|j: int| 0 <= j < sync_room(syncs).len() && #[trigger] bins[j].contains(ids[k]);
        assert(sol->Ok_0.syncs[j].1 == bins[j]);
    }
}

/// The distinct requirements are no more than the requirements, hold no
/// repeat, and hold exactly the objects that the requirements hold.
pub proof fn lemma_distinct(s: Seq<Sdo>)
    ensures
        distinct(s).len() <= s.len(),
        distinct(s).no_duplicates(),
        forall|x: Sdo| s.contains(x) <==> #[trigger] distinct(s).contains(x),
    decreases s.len(),
{
    if s.len() > 0 {
        let prev = s.drop_last();
        let e = s.last();
        lemma_distinct(prev);
        let d = distinct(prev);
        assert forall|x: Sdo| s.contains(x) implies #[trigger] distinct(s).contains(x) by {
            let k = choose|k: int| 0 <= k < s.len() && s[k] == x;
            if k < s.len() - 1 {
                assert(prev[k] == x);
                assert(prev.contains(x));
                assert(d.contains(x));
                let w = choose|w: int| 0 <= w < d.len() && d[w] == x;
                if !d.contains(e) {
                    assert(d.push(e)[w] == x);
                }
            } else if !d.contains(e) {
                assert(d.push(e)[d.len() as int] == x);
            }
        }
        assert forall|x: Sdo| #[trigger] distinct(s).contains(x) implies s.contains(x) by {
            let w = choose|w: int| 0 <= w < distinct(s).len() && distinct(s)[w] == x;
            if !d.contains(e) && w == d.len() {
                assert(s[s.len() - 1] == x);
            } else {
                if !d.contains(e) {
                    assert(d.push(e)[w] == d[w]);
                }
                assert(d.contains(x));
                assert(prev.contains(x));
                let k = choose|k: int| 0 <= k < prev.len() && prev[k] == x;
                assert(s[k] == x);
            }
        }
    }
}

/// With room enough in the configurable PDOs for every requirement, a repeat
/// counting as one, and in the sync managers for every PDO, resolution
/// succeeds, every requirement is carried by a used PDO, and every used PDO
/// goes to a sync manager.
pub proof fn lemma_enough_room_resolves(reqs: Seq<Sdo>, pdos: Seq<PdoOffer>, syncs: Seq<AvailableSync>)
    requires
        offers_valid(pdos),
        distinct(reqs).len() <= total(pdo_room(pdos)),
        pdos.len() <= total(sync_room(syncs)),
    ensures
        solution(reqs, pdos, syncs) is Ok,
        forall|i: int|
            0 <= i < reqs.len() ==> carries(solution(reqs, pdos, syncs)->Ok_0, #[trigger] reqs[i]),
        forall|k: int|
            0 <= k < solution(reqs, pdos, syncs)->Ok_0.pdos.len() ==> transmits(
                solution(reqs, pdos, syncs)->Ok_0,
                #[trigger] solution(reqs, pdos, syncs)->Ok_0.pdos[k].0,
            ),
{
    let set = distinct(reqs);
    lemma_distinct(reqs);
    lemma_enough_room_set(set, pdos, syncs);
    assert forall|i: int| 0 <= i < reqs.len() implies carries(solution(reqs, pdos, syncs)->Ok_0, #[trigger] reqs[i]) by {
        assert(reqs.contains(reqs[i]));
        assert(set.contains(reqs[i]));
        let m = choose|m: int| 0 <= m < set.len() && set[m] == reqs[i];
        assert(carries(set_solution(set, pdos, syncs)->Ok_0, set[m]));
    }
}

/// Resolution fails for want of configurable PDOs exactly when the
/// requirements, a repeat counting as one, left after the first phase outnumber the entries that the
/// configurable PDOs accept; it fails for want of sync managers exactly when
/// those are enough but the used PDOs outnumber what the sync managers accept.
pub proof fn lemma_failure_conditions(reqs: Seq<Sdo>, pdos: Seq<AvailablePdo>, syncs: Seq<AvailableSync>)
    ensures
        solution(reqs, offers_of(pdos), syncs) == Err::<MappingModel, MappingError>(MappingError::LackOfPdo)
            <==> leftovers(distinct(reqs), offers_of(pdos)).len() > total(pdo_room(offers_of(pdos))),
        solution(reqs, offers_of(pdos), syncs) == Err::<MappingModel, MappingError>(MappingError::LackOfSync)
            <==> (leftovers(distinct(reqs), offers_of(pdos)).len() <= total(pdo_room(offers_of(pdos)))
            && used_pdos(distinct(reqs), offers_of(pdos), pdos.len() as int).len() > total(sync_room(syncs))),
        solution(reqs, offers_of(pdos), syncs) is Ok || solution(reqs, offers_of(pdos), syncs) == Err::<
            MappingModel,
            MappingError,
        >(MappingError::LackOfPdo) || solution(reqs, offers_of(pdos), syncs) == Err::<
            MappingModel,
            MappingError,
        >(MappingError::LackOfSync),
{
}

/// Resolution is deterministic: two results of `solve` on the same
/// requirements and on inventories of the same content are the same mapping,
/// or the same error.
pub proof fn lemma_solve_deterministic(
    reqs: Seq<Sdo>,
    pdos1: Seq<AvailablePdo>,
    pdos2: Seq<AvailablePdo>,
    syncs: Seq<AvailableSync>,
    r1: Result<Mapping, MappingError>,
    r2: Result<Mapping, MappingError>,
)
    requires
        offers_of(pdos1) == offers_of(pdos2),
        outcome(r1) == solution(reqs, offers_of(pdos1), syncs),
        outcome(r2) == solution(reqs, offers_of(pdos2), syncs),
    ensures
        outcome(r1) == outcome(r2),
{
}

/// A resolved mapping lists every sync manager of the inventory in order, and
/// gives none more PDOs than it accepts.
pub proof fn lemma_syncs_within_capacity(reqs: Seq<Sdo>, pdos: Seq<AvailablePdo>, syncs: Seq<AvailableSync>, j: int)
    requires
        solution(reqs, offers_of(pdos), syncs) is Ok,
        0 <= j < syncs.len(),
    ensures
        solution(reqs, offers_of(pdos), syncs)->Ok_0.syncs.len() == syncs.len(),
        solution(reqs, offers_of(pdos), syncs)->Ok_0.syncs[j].0 == syncs[j].index,
        solution(reqs, offers_of(pdos), syncs)->Ok_0.syncs[j].1.len() <= syncs[j].capacity,
{
    let ids = used_pdos(distinct(reqs), offers_of(pdos), pdos.len() as int).map_values(|p: (u16, Seq<Sdo>)| p.0);
    lemma_deal_bounds(ids, sync_room(syncs), j);
}

proof fn lemma_deal_flatten<A>(items: Seq<A>, caps: Seq<nat>)
    requires
        items.len() <= total(caps),
    ensures
        deal(items, caps).flatten() == items,
    decreases caps.len(),
{
    if caps.len() == 0 {
        assert(total(caps) == 0);
        assert(items =~= seq![]);
    } else {
        lemma_total_front(caps);
        let k = if caps[0] <= items.len() { caps[0] as int } else { items.len() as int };
        let d = deal(items, caps);
        lemma_deal_flatten(items.skip(k), caps.drop_first());
        assert(d.drop_first() =~= deal(items.skip(k), caps.drop_first()));
        assert(d.first() == items.take(k));
        assert(items.take(k) + items.skip(k) =~= items);
    }
}

proof fn lemma_pending_no_duplicates(u: Seq<Sdo>, reached: Seq<bool>, n: int)
    requires
        u.no_duplicates(),
        0 <= n <= u.len(),
        n <= reached.len(),
    ensures
        still_pending(u, reached, n).no_duplicates(),
        forall|k: int|
            0 <= k < still_pending(u, reached, n).len() ==> exists|j: int|
                0 <= j < n && u[j] == #[trigger] still_pending(u, reached, n)[k],
    decreases n,
{
    if n > 0 {
        lemma_pending_no_duplicates(u, reached, n - 1);
        let prev = still_pending(u, reached, n - 1);
        if !reached[n - 1] {
            let cur = prev.push(u[n - 1]);
            assert forall|k: int| 0 <= k < prev.len() implies cur[k] != u[n - 1] by {
                let j = choose|j: int| 0 <= j < n - 1 && u[j] == #[trigger] prev[k];
                assert(u[j] != u[n - 1]);
            }
            assert forall|k: int| 0 <= k < cur.len() implies exists|j: int|
                0 <= j < n && u[j] == #[trigger] cur[k] by {
                if k < prev.len() {
                    let j = choose|j: int| 0 <= j < n - 1 && u[j] == #[trigger] prev[k];
                    assert(u[j] == cur[k]);
                } else {
                    assert(u[n - 1] == cur[k]);
                }
            }
        }
    }
}

/// When resolution succeeds, the configurable PDOs, read in inventory order,
/// hold the requirements that no picked fixed PDO reaches, in requirement
/// order, each exactly once, and nothing else.
pub proof fn lemma_leftovers_placed_once(reqs: Seq<Sdo>, pdos: Seq<PdoOffer>, syncs: Seq<AvailableSync>)
    requires
        solution(reqs, pdos, syncs) is Ok,
    ensures
        filling(distinct(reqs), pdos).flatten() == leftovers(distinct(reqs), pdos),
        leftovers(distinct(reqs), pdos).no_duplicates(),
{
    let u = distinct(reqs);
    lemma_distinct(reqs);
    lemma_deal_flatten(leftovers(u, pdos), pdo_room(pdos));
    let init = Seq::new(u.len(), |i: int| false);
    lemma_select_fixed(u, pdos, init, init, seq![]);
    if u.len() > 0 {
        lemma_reached_by(u, pdos, init, first_phase(u, pdos).1, 0);
    }
    lemma_pending_no_duplicates(u, first_phase(u, pdos).0, u.len() as int);
}

} // verus!
