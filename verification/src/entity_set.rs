use vstd::prelude::*;

use crate::entity::Entity;
use crate::error::SdmError;
use crate::sat_add_u64;
use crate::uid::fresh_uuid;

verus! {

/// The queueing discipline of an [`EntitySet`].
#[derive(Clone, Copy, Debug, PartialEq, Eq, Structural)]
pub enum EntitySetMode {
    /// First in, first served.
    FIFO,
    /// Last in, first served.
    LIFO,
    /// Highest priority first; entities without a priority rank below every
    /// explicit priority, and equal priorities are served in insertion order.
    PRIORITY,
}

impl Default for EntitySetMode {
    /// The discipline a set gets when none is chosen.
    fn default() -> (r: EntitySetMode)
        ensures
            r == EntitySetMode::FIFO,
    {
        EntitySetMode::FIFO
    }
}

/// The rank an entity's priority gives it under the PRIORITY discipline:
/// `None` ranks strictly below every explicit priority.
pub open spec fn prio_rank(p: Option<i32>) -> int {
    match p {
        Option::None => i32::MIN - 1,
        Option::Some(v) => v as int,
    }
}

/// The internal sequence of a PRIORITY set is kept ascending by rank from
/// head to tail, so that popping the tail serves the highest rank.
pub open spec fn prio_sorted(items: Seq<(u64, Entity)>) -> bool {
    forall|i: int, j: int|
        0 <= i < j < items.len() ==> prio_rank(#[trigger] items[i].1@.priority) <= prio_rank(
            #[trigger] items[j].1@.priority,
        )
}

/// Where a push under the PRIORITY discipline lands: the first index from the
/// head whose rank is at least `r`. Entities of equal rank already in the set
/// sit at or after this index, so the newcomer stays head-side of them and is
/// served after them.
pub open spec fn prio_slot(items: Seq<(u64, Entity)>, r: int) -> int
    decreases items.len(),
{
    if items.len() == 0 {
        0
    } else if prio_rank(items[0].1@.priority) >= r {
        0
    } else {
        1 + prio_slot(items.drop_first(), r)
    }
}

/// `prio_slot` always lies within the sequence's bounds.
pub proof fn lemma_prio_slot_in_range(items: Seq<(u64, Entity)>, r: int)
    ensures
        0 <= prio_slot(items, r) <= items.len(),
    decreases items.len(),
{
    if items.len() == 0 {
    } else if prio_rank(items[0].1@.priority) >= r {
    } else {
        lemma_prio_slot_in_range(items.drop_first(), r);
    }
}

/// The internal sequence after a push. The tail is always the pop end:
/// FIFO prepends (oldest stays at the tail), LIFO appends (newest is at the
/// tail), PRIORITY inserts at its slot.
pub open spec fn spec_push(
    items: Seq<(u64, Entity)>,
    stamp: u64,
    entity: Entity,
    mode: EntitySetMode,
) -> Seq<(u64, Entity)> {
    match mode {
        EntitySetMode::FIFO => seq![(stamp, entity)] + items,
        EntitySetMode::LIFO => items + seq![(stamp, entity)],
        EntitySetMode::PRIORITY => items.insert(
            prio_slot(items, prio_rank(entity@.priority)),
            (stamp, entity),
        ),
    }
}

/// A discipline-governed container of entities. Each held entity carries the
/// virtual time it was inserted, so residence times are computable at any
/// instant; rolling statistics are accumulated by the analytics tick.
pub struct EntitySet {
    name: String,
    id: u128,
    mode: EntitySetMode,
    max_size: Option<usize>,
    average_size_sum: u64,
    max_time_in_set: u64,
    container: Vec<(u64, Entity)>,
}

/// The mathematical image of an [`EntitySet`].
pub struct EntitySetModel {
    pub name: Seq<char>,
    pub id: u128,
    pub mode: EntitySetMode,
    pub max_size: Option<usize>,
    pub average_size_sum: u64,
    pub max_time_in_set: u64,
    pub items: Seq<(u64, Entity)>,
}

impl View for EntitySet {
    type V = EntitySetModel;

    closed spec fn view(&self) -> EntitySetModel {
        EntitySetModel {
            name: self.name@,
            id: self.id,
            mode: self.mode,
            max_size: self.max_size,
            average_size_sum: self.average_size_sum,
            max_time_in_set: self.max_time_in_set,
            items: self.container@,
        }
    }
}

impl EntitySetModel {
    /// Well-formedness: a bounded set never exceeds its bound, and a PRIORITY
    /// set keeps its sequence ascending by rank toward the tail.
    pub open spec fn wf(self) -> bool {
        &&& (self.max_size matches Some(m) ==> self.items.len() <= m)
        &&& (self.mode == EntitySetMode::PRIORITY ==> prio_sorted(self.items))
    }

    /// A bounded set is full when it holds as many entities as its bound.
    pub open spec fn is_full(self) -> bool {
        match self.max_size {
            Option::Some(m) => self.items.len() >= m,
            Option::None => false,
        }
    }
}

impl EntitySet {
    /// Create an unbounded set with the given discipline.
    pub fn new(name: &str, mode: EntitySetMode) -> (s: EntitySet)
        ensures
            s@.wf(),
            s@.name == name@,
            s@.mode == mode,
            s@.max_size is None,
            s@.items.len() == 0,
            s@.average_size_sum == 0,
            s@.max_time_in_set == 0,
    {
        EntitySet {
            name: name.to_owned(),
            id: fresh_uuid(),
            mode,
            max_size: None,
            average_size_sum: 0,
            max_time_in_set: 0,
            container: Vec::new(),
        }
    }

    /// Create a bounded set with the given discipline and capacity.
    pub fn new_sized(name: &str, mode: EntitySetMode, max_size: usize) -> (s: EntitySet)
        ensures
            s@.wf(),
            s@.name == name@,
            s@.mode == mode,
            s@.max_size == Some(max_size),
            s@.items.len() == 0,
            s@.average_size_sum == 0,
            s@.max_time_in_set == 0,
    {
        EntitySet {
            name: name.to_owned(),
            id: fresh_uuid(),
            mode,
            max_size: Some(max_size),
            average_size_sum: 0,
            max_time_in_set: 0,
            container: Vec::new(),
        }
    }

    /// The set's discipline.
    pub fn mode(&self) -> (r: EntitySetMode)
        ensures
            r == self@.mode,
    {
        self.mode
    }

    /// Switch the discipline of a still-empty set. The discipline is part of
    /// the meaning of the stored order, so it cannot change under held
    /// entities.
    pub fn set_mode(&mut self, mode: EntitySetMode)
        requires
            old(self)@.items.len() == 0,
            old(self)@.wf(),
        ensures
            final(self)@.wf(),
            final(self)@ == (EntitySetModel { mode, ..old(self)@ }),
    {
        self.mode = mode;
    }

    /// The set's name.
    pub fn name(&self) -> (r: &String)
        ensures
            r@ == self@.name,
    {
        &self.name
    }

    /// How many entities the set currently holds.
    pub fn size(&self) -> (r: usize)
        ensures
            r == self@.items.len(),
    {
        self.container.len()
    }

    /// Whether the set holds no entity.
    pub fn is_empty(&self) -> (r: bool)
        ensures
            r == (self@.items.len() == 0),
    {
        self.container.is_empty()
    }

    /// Whether a bounded set is at its bound; an unbounded set is never full.
    pub fn is_full(&self) -> (r: bool)
        ensures
            r == self@.is_full(),
    {
        match self.max_size {
            Some(m) => self.container.len() >= m,
            None => false,
        }
    }

    /// The bound, if the set has one.
    pub fn max_size(&self) -> (r: Option<usize>)
        ensures
            r == self@.max_size,
    {
        self.max_size
    }

    /// Insert an entity, stamping it with the current virtual time `now`.
    /// Succeeds exactly when the set is not full; a push into a full bounded
    /// set is rejected with `CapacityExceeded` and changes nothing.
    pub fn push(&mut self, entity: Entity, now: u64) -> (r: Result<(), SdmError>)
        requires
            old(self)@.wf(),
        ensures
            final(self)@.wf(),
            old(self)@.is_full() ==> r == Err::<(), SdmError>(SdmError::CapacityExceeded)
                && final(self)@ == old(self)@,
            !old(self)@.is_full() ==> r == Ok::<(), SdmError>(()) && final(self)@ == (
            EntitySetModel {
                items: spec_push(old(self)@.items, now, entity, old(self)@.mode),
                ..old(self)@
            }),
    {
        match self.max_size {
            Some(m) => {
                if self.container.len() >= m {
                    return Err(SdmError::CapacityExceeded);
                }
            },
            None => {},
        }
        match self.mode {
            EntitySetMode::FIFO => {
                self.container.insert(0, (now, entity));
                assert(self.container@ =~= seq![(now, entity)] + old(self).container@);
            },
            EntitySetMode::LIFO => {
                self.container.push((now, entity));
                assert(self.container@ =~= old(self).container@ + seq![(now, entity)]);
            },
            EntitySetMode::PRIORITY => {
                let ghost items = self.container@;
                let ghost r = prio_rank(entity@.priority);
                let mut i: usize = 0;
                while i < self.container.len() && prio_less(
                    self.container[i].1.priority(),
                    entity.priority(),
                )
                    invariant
                        0 <= i <= items.len(),
                        self.container@ == items,
                        forall|j: int|
                            0 <= j < i ==> prio_rank(#[trigger] items[j].1@.priority) < r,
                        r == prio_rank(entity@.priority),
                    decreases items.len() - i,
                {
                    i = i + 1;
                }
                proof {
                    lemma_prio_slot_of_scan(items, r, i as int);
                }
                self.container.insert(i, (now, entity));
                proof {
                    lemma_prio_insert_sorted(items, r, i as int, (now, entity));
                }
            },
        }
        Ok(())
    }

    /// Remove and return the next-to-serve entity: the tail of the internal
    /// sequence under every discipline. Returns `None` exactly when the set
    /// is empty. Under PRIORITY, the popped entity ranks at least as high as
    /// everything left behind.
    pub fn pop(&mut self) -> (r: Option<Entity>)
        requires
            old(self)@.wf(),
        ensures
            final(self)@.wf(),
            old(self)@.items.len() == 0 ==> r is None && final(self)@ == old(self)@,
            old(self)@.items.len() > 0 ==> (r matches Some(e) && e == old(self)@.items.last().1
                && final(self)@ == (EntitySetModel {
                items: old(self)@.items.drop_last(),
                ..old(self)@
            }) && (old(self)@.mode == EntitySetMode::PRIORITY ==> forall|i: int|
                0 <= i < old(self)@.items.len() ==> prio_rank(
                    #[trigger] old(self)@.items[i].1@.priority,
                ) <= prio_rank(e@.priority))),
    {
        match self.container.pop() {
            Some(item) => Some(item.1),
            None => None,
        }
    }
}

/// Whether some held entity carries the identifier.
pub open spec fn contains_id(items: Seq<(u64, Entity)>, id: u128) -> bool {
    exists|i: int| 0 <= i < items.len() && #[trigger] items[i].1@.id == id
}

/// The first index, from the head, whose entity carries the identifier
/// (`items.len()` when none does).
pub open spec fn find_id(items: Seq<(u64, Entity)>, id: u128) -> int
    decreases items.len(),
{
    if items.len() == 0 {
        0
    } else if items[0].1@.id == id {
        0
    } else {
        1 + find_id(items.drop_first(), id)
    }
}

/// When the identifier is present, `find_id` points at its first holder.
pub proof fn lemma_find_id_in_range(items: Seq<(u64, Entity)>, id: u128)
    requires
        contains_id(items, id),
    ensures
        0 <= find_id(items, id) < items.len(),
        items[find_id(items, id)].1@.id == id,
    decreases items.len(),
{
    if items[0].1@.id == id {
    } else {
        let w = choose|i: int| 0 <= i < items.len() && #[trigger] items[i].1@.id == id;
        assert(items.drop_first()[w - 1] == items[w]);
        assert(contains_id(items.drop_first(), id));
        lemma_find_id_in_range(items.drop_first(), id);
        assert(items.drop_first()[find_id(items.drop_first(), id)] == items[find_id(items, id)]);
    }
}

/// The maximum residence time at virtual time `now` over the held entities,
/// folded onto a running maximum `cur`.
pub open spec fn ticked_max(cur: u64, items: Seq<(u64, Entity)>, now: u64) -> u64
    decreases items.len(),
{
    if items.len() == 0 {
        cur
    } else {
        let rest = ticked_max(cur, items.drop_last(), now);
        if now - items.last().0 > rest {
            (now - items.last().0) as u64
        } else {
            rest
        }
    }
}

/// The summed residence time at virtual time `now` over the held entities.
pub open spec fn sum_res(items: Seq<(u64, Entity)>, now: u64) -> int
    decreases items.len(),
{
    if items.len() == 0 {
        0
    } else {
        sum_res(items.drop_last(), now) + (now - items.last().0)
    }
}

impl EntitySet {
    /// Remove and return the first entity, scanning from the head, whose
    /// identifier matches; `None` when no held entity matches.
    pub fn remove(&mut self, id: u128) -> (r: Option<Entity>)
        requires
            old(self)@.wf(),
        ensures
            final(self)@.wf(),
            !contains_id(old(self)@.items, id) ==> r is None && final(self)@ == old(self)@,
            contains_id(old(self)@.items, id) ==> (r matches Some(e) && e == old(
                self,
            )@.items[find_id(old(self)@.items, id)].1 && e@.id == id && final(self)@ == (
            EntitySetModel {
                items: old(self)@.items.remove(find_id(old(self)@.items, id)),
                ..old(self)@
            })),
    {
        let ghost items = self@.items;
        let mut i: usize = 0;
        while i < self.container.len() && self.container[i].1.id() != id
            invariant
                self.container@ == items,
                0 <= i <= items.len(),
                forall|j: int| 0 <= j < i ==> #[trigger] items[j].1@.id != id,
            decreases items.len() - i,
        {
            i = i + 1;
        }
        if i < self.container.len() {
            proof {
                lemma_find_id_of_scan(items, id, i as int);
                lemma_prio_sorted_remove(items, i as int);
            }
            let item = self.container.remove(i);
            Some(item.1)
        } else {
            assert(!contains_id(items, id));
            None
        }
    }

    /// Hand a read-only view of the matching entity to `func`; fails with
    /// `NotFound` exactly when no held entity carries the identifier. On
    /// success the callback has run on a held entity with that identifier:
    /// its postcondition holds of the match.
    pub fn apply_for_id<F: Fn(&Entity)>(&self, id: u128, func: F) -> (r: Result<(), SdmError>)
        requires
            forall|e: &Entity| call_requires(func, (e,)),
        ensures
            contains_id(self@.items, id) ==> r == Ok::<(), SdmError>(()),
            !contains_id(self@.items, id) ==> r == Err::<(), SdmError>(SdmError::NotFound),
            r is Ok ==> exists|i: int|
                0 <= i < self@.items.len() && (#[trigger] self@.items[i]).1@.id == id
                    && call_ensures(func, (&self@.items[i].1,), ()),
    {
        let ghost items = self@.items;
        let mut i: usize = 0;
        while i < self.container.len() && self.container[i].1.id() != id
            invariant
                self.container@ == items,
                0 <= i <= items.len(),
                forall|j: int| 0 <= j < i ==> #[trigger] items[j].1@.id != id,
            decreases items.len() - i,
        {
            i = i + 1;
        }
        if i < self.container.len() {
            func(&self.container[i].1);
            proof {
                assert((i as int) < self@.items.len());
                assert(self@.items[i as int].1@.id == id);
                assert(call_ensures(func, (&self@.items[i as int].1,), ()));
            }
            Ok(())
        } else {
            assert(!contains_id(items, id));
            Err(SdmError::NotFound)
        }
    }

    /// One analytics tick at virtual time `now`: fold the current occupancy
    /// into the running sum, and raise the observed maximum residence time to
    /// the largest residence among the held entities.
    pub fn update_analytics(&mut self, now: u64)
        requires
            old(self)@.wf(),
            forall|i: int| 0 <= i < old(self)@.items.len() ==> #[trigger] old(
                self,
            )@.items[i].0 <= now,
        ensures
            final(self)@.wf(),
            final(self)@ == (EntitySetModel {
                average_size_sum: sat_add_u64(
                    old(self)@.average_size_sum,
                    old(self)@.items.len() as u64,
                ),
                max_time_in_set: ticked_max(old(self)@.max_time_in_set, old(self)@.items, now),
                ..old(self)@
            }),
    {
        let ghost items = self@.items;
        let mut i: usize = 0;
        while i < self.container.len()
            invariant
                self.container@ == items,
                0 <= i <= items.len(),
                forall|j: int| 0 <= j < items.len() ==> #[trigger] items[j].0 <= now,
                self@ == (EntitySetModel {
                    max_time_in_set: ticked_max(
                        old(self)@.max_time_in_set,
                        items.subrange(0, i as int),
                        now,
                    ),
                    ..old(self)@
                }),
            decreases items.len() - i,
        {
            let residence = now - self.container[i].0;
            if residence > self.max_time_in_set {
                self.max_time_in_set = residence;
            }
            proof {
                assert(items.subrange(0, i + 1 as int).drop_last() =~= items.subrange(
                    0,
                    i as int,
                ));
                assert(items.subrange(0, i + 1 as int).last() == items[i as int]);
            }
            i = i + 1;
        }
        proof {
            assert(items.subrange(0, items.len() as int) =~= items);
        }
        self.average_size_sum = self.average_size_sum.saturating_add(
            self.container.len() as u64,
        );
    }

    /// The rolling mean occupancy after `now` ticks: the accumulated
    /// occupancy sum divided by the tick count.
    pub fn average_size(&self, now: u64) -> (r: u64)
        requires
            now >= 1,
        ensures
            r == self@.average_size_sum / now,
    {
        self.average_size_sum / now
    }

    /// The mean residence time, at virtual time `now`, of the entities the
    /// set currently holds; zero when it holds none.
    pub fn average_time_in_set(&self, now: u64) -> (r: u64)
        requires
            forall|i: int| 0 <= i < self@.items.len() ==> #[trigger] self@.items[i].0 <= now,
        ensures
            self@.items.len() == 0 ==> r == 0,
            self@.items.len() > 0 ==> r == sum_res(self@.items, now) / (self@.items.len() as int),
    {
        if self.container.len() == 0 {
            return 0;
        }
        let ghost items = self@.items;
        let ghost bound = u64::MAX as int;
        let mut total: u128 = 0;
        let mut i: usize = 0;
        while i < self.container.len()
            invariant
                self.container@ == items,
                0 <= i <= items.len(),
                forall|j: int| 0 <= j < items.len() ==> #[trigger] items[j].0 <= now,
                total == sum_res(items.subrange(0, i as int), now),
                total <= i as int * bound,
                bound == u64::MAX as int,
            decreases items.len() - i,
        {
            let residence = now - self.container[i].0;
            proof {
                assert(items.subrange(0, i + 1 as int).drop_last() =~= items.subrange(
                    0,
                    i as int,
                ));
                assert(items.subrange(0, i + 1 as int).last() == items[i as int]);
                assert((i as int) * bound + bound == (i + 1 as int) * bound) by (nonlinear_arith);
                assert((i + 1 as int) * bound <= u128::MAX) by (nonlinear_arith)
                    requires
                        0 <= i as int,
                        i + 1 <= 0x1_0000_0000_0000_0000,
                        bound == u64::MAX as int,
                ;
            }
            total = total + residence as u128;
            i = i + 1;
        }
        proof {
            assert(items.subrange(0, items.len() as int) =~= items);
            let n = items.len() as int;
            vstd::arithmetic::div_mod::lemma_div_is_ordered(total as int, n * bound, n);
            vstd::arithmetic::div_mod::lemma_div_by_multiple(bound, n);
        }
        let avg = total / (self.container.len() as u128);
        avg as u64
    }

    /// The running maximum residence time observed by the analytics tick.
    pub fn max_time_in_set(&self) -> (r: u64)
        ensures
            r == self@.max_time_in_set,
    {
        self.max_time_in_set
    }

    /// The accumulated occupancy sum the analytics tick maintains: the exact
    /// numerator of the rolling mean occupancy that `average_size` floors.
    pub fn average_size_sum(&self) -> (r: u64)
        ensures
            r == self@.average_size_sum,
    {
        self.average_size_sum
    }
}

/// A head-to-tail scan that stopped at the first identifier match has found
/// `find_id`.
proof fn lemma_find_id_of_scan(items: Seq<(u64, Entity)>, id: u128, i: int)
    requires
        0 <= i <= items.len(),
        forall|j: int| 0 <= j < i ==> #[trigger] items[j].1@.id != id,
        i < items.len() ==> items[i].1@.id == id,
    ensures
        find_id(items, id) == i,
    decreases items.len(),
{
    if items.len() == 0 {
    } else if items[0].1@.id == id {
        assert(i == 0);
    } else {
        assert(i >= 1);
        lemma_find_id_of_scan(items.drop_first(), id, i - 1);
    }
}

/// Removing an element keeps the sequence sorted by rank.
proof fn lemma_prio_sorted_remove(items: Seq<(u64, Entity)>, k: int)
    requires
        0 <= k < items.len(),
    ensures
        prio_sorted(items) ==> prio_sorted(items.remove(k)),
{
    if prio_sorted(items) {
        let out = items.remove(k);
        assert forall|p: int, q: int| 0 <= p < q < out.len() implies prio_rank(
            out[p].1@.priority,
        ) <= prio_rank(out[q].1@.priority) by {
            let p0 = if p < k {
                p
            } else {
                p + 1
            };
            let q0 = if q < k {
                q
            } else {
                q + 1
            };
            assert(out[p] == items[p0]);
            assert(out[q] == items[q0]);
        }
    }
}

/// The entities of an internal sequence, insertion stamps stripped.
pub open spec fn entities(items: Seq<(u64, Entity)>) -> Seq<Entity> {
    items.map_values(|p: (u64, Entity)| p.1)
}

/// The order in which repeated pops serve a set whose internal sequence is
/// `items`: the tail first.
pub open spec fn pop_order(items: Seq<(u64, Entity)>) -> Seq<Entity> {
    entities(items).reverse()
}

/// The internal sequence after pushing the entities of `es`, first element
/// first, each stamped `stamp`, into a set whose sequence was `items`.
pub open spec fn push_all(
    items: Seq<(u64, Entity)>,
    es: Seq<Entity>,
    stamp: u64,
    mode: EntitySetMode,
) -> Seq<(u64, Entity)>
    decreases es.len(),
{
    if es.len() == 0 {
        items
    } else {
        spec_push(push_all(items, es.drop_last(), stamp, mode), stamp, es.last(), mode)
    }
}

/// Prepending one item serves it after everything already held.
proof fn lemma_pop_order_prepend(x: (u64, Entity), items: Seq<(u64, Entity)>)
    ensures
        pop_order(seq![x] + items) == pop_order(items) + seq![x.1],
{
    let z = seq![x] + items;
    assert forall|i: int| 0 <= i < z.len() implies pop_order(z)[i] == (pop_order(items) + seq![
        x.1,
    ])[i] by {
        if i < items.len() {
            assert(z[z.len() - 1 - i] == items[items.len() - 1 - i]);
        } else {
            assert(z[z.len() - 1 - i] == x);
        }
    }
    assert(pop_order(z) =~= pop_order(items) + seq![x.1]);
}

/// FIFO round trip: after pushing the entities of `es` into a FIFO set, the
/// pops serve whatever the set already held, then `es` in insertion order.
/// Pushed into an empty FIFO set, `n` entities come back out in insertion
/// order.
pub proof fn lemma_fifo_pop_order(items: Seq<(u64, Entity)>, es: Seq<Entity>, stamp: u64)
    ensures
        pop_order(push_all(items, es, stamp, EntitySetMode::FIFO)) == pop_order(items) + es,
    decreases es.len(),
{
    if es.len() == 0 {
        assert(pop_order(items) + es =~= pop_order(items));
    } else {
        let inner = push_all(items, es.drop_last(), stamp, EntitySetMode::FIFO);
        lemma_fifo_pop_order(items, es.drop_last(), stamp);
        lemma_pop_order_prepend((stamp, es.last()), inner);
        assert(pop_order(items) + es.drop_last() + seq![es.last()] =~= pop_order(items) + es);
    }
}

/// LIFO round trip: after pushing the entities of `es` into a LIFO set, the
/// pops serve `es` in reverse insertion order, then whatever the set already
/// held. Pushed into an empty LIFO set, `n` entities come back out in
/// reverse order.
pub proof fn lemma_lifo_pop_order(items: Seq<(u64, Entity)>, es: Seq<Entity>, stamp: u64)
    ensures
        pop_order(push_all(items, es, stamp, EntitySetMode::LIFO)) == es.reverse() + pop_order(
            items,
        ),
    decreases es.len(),
{
    let out = push_all(items, es, stamp, EntitySetMode::LIFO);
    lemma_lifo_shape(items, es, stamp);
    assert forall|i: int| 0 <= i < out.len() implies pop_order(out)[i] == (es.reverse()
        + pop_order(items))[i] by {
        if i < es.len() {
            assert(out[out.len() - 1 - i] == (stamp, es[es.len() - 1 - i]));
        } else {
            assert(out[out.len() - 1 - i] == items[items.len() - 1 - (i - es.len())]);
        }
    }
    assert(pop_order(out) =~= es.reverse() + pop_order(items));
}

/// A LIFO push appends, so pushing `es` appends its stamped entities.
proof fn lemma_lifo_shape(items: Seq<(u64, Entity)>, es: Seq<Entity>, stamp: u64)
    ensures
        push_all(items, es, stamp, EntitySetMode::LIFO).len() == items.len() + es.len(),
        forall|k: int|
            0 <= k < items.len() ==> push_all(items, es, stamp, EntitySetMode::LIFO)[k]
                == items[k],
        forall|k: int|
            items.len() <= k < items.len() + es.len() ==> push_all(
                items,
                es,
                stamp,
                EntitySetMode::LIFO,
            )[k] == (stamp, es[k - items.len()]),
    decreases es.len(),
{
    if es.len() == 0 {
    } else {
        lemma_lifo_shape(items, es.drop_last(), stamp);
    }
}

/// `prio_slot` finds a slot inside the sequence whose head side ranks
/// strictly below `r` and whose own rank, if it exists, is at least `r`.
proof fn lemma_prio_slot_props(items: Seq<(u64, Entity)>, r: int)
    ensures
        0 <= prio_slot(items, r) <= items.len(),
        forall|j: int|
            0 <= j < prio_slot(items, r) ==> prio_rank(#[trigger] items[j].1@.priority) < r,
        prio_slot(items, r) < items.len() ==> prio_rank(
            items[prio_slot(items, r)].1@.priority,
        ) >= r,
    decreases items.len(),
{
    if items.len() == 0 {
    } else if prio_rank(items[0].1@.priority) >= r {
    } else {
        lemma_prio_slot_props(items.drop_first(), r);
        let s = prio_slot(items, r);
        assert forall|j: int| 0 <= j < s implies prio_rank(#[trigger] items[j].1@.priority)
            < r by {
            if j > 0 {
                assert(items.drop_first()[j - 1] == items[j]);
            }
        }
        if s < items.len() {
            assert(items.drop_first()[s - 1] == items[s]);
        }
    }
}

/// A push keeps a PRIORITY sequence sorted by rank.
proof fn lemma_spec_push_sorted(items: Seq<(u64, Entity)>, stamp: u64, e: Entity)
    requires
        prio_sorted(items),
    ensures
        prio_sorted(spec_push(items, stamp, e, EntitySetMode::PRIORITY)),
{
    let r = prio_rank(e@.priority);
    lemma_prio_slot_props(items, r);
    lemma_prio_insert_sorted(items, r, prio_slot(items, r), (stamp, e));
}

/// PRIORITY discipline: pushing any entities into a sorted PRIORITY set
/// leaves a sorted set, so the pops serve ranks in descending order.
pub proof fn lemma_priority_pop_sorted(items: Seq<(u64, Entity)>, es: Seq<Entity>, stamp: u64)
    requires
        prio_sorted(items),
    ensures
        prio_sorted(push_all(items, es, stamp, EntitySetMode::PRIORITY)),
        forall|i: int, j: int|
            0 <= i < j < pop_order(push_all(items, es, stamp, EntitySetMode::PRIORITY)).len()
                ==> prio_rank(
                #[trigger] pop_order(push_all(items, es, stamp, EntitySetMode::PRIORITY))[i]@.priority,
            ) >= prio_rank(
                #[trigger] pop_order(push_all(items, es, stamp, EntitySetMode::PRIORITY))[j]@.priority,
            ),
    decreases es.len(),
{
    if es.len() == 0 {
    } else {
        lemma_priority_pop_sorted(items, es.drop_last(), stamp);
        lemma_spec_push_sorted(
            push_all(items, es.drop_last(), stamp, EntitySetMode::PRIORITY),
            stamp,
            es.last(),
        );
    }
    let out = push_all(items, es, stamp, EntitySetMode::PRIORITY);
    assert forall|i: int, j: int| 0 <= i < j < pop_order(out).len() implies prio_rank(
        pop_order(out)[i]@.priority,
    ) >= prio_rank(pop_order(out)[j]@.priority) by {
        assert(pop_order(out)[i] == out[out.len() - 1 - i].1);
        assert(pop_order(out)[j] == out[out.len() - 1 - j].1);
        assert(prio_rank(out[out.len() - 1 - j].1@.priority) <= prio_rank(
            out[out.len() - 1 - i].1@.priority,
        ));
    }
}

/// No two entities of the batch share an identifier.
pub open spec fn ids_distinct(es: Seq<Entity>) -> bool {
    forall|i: int, j: int|
        0 <= i < j < es.len() ==> (#[trigger] es[i])@.id != (#[trigger] es[j])@.id
}

/// Where an identifier sits after an entity with a different identifier is
/// inserted: its index keeps its place, shifted past the insertion point.
proof fn lemma_find_id_after_insert(
    items: Seq<(u64, Entity)>,
    k: int,
    item: (u64, Entity),
    id: u128,
)
    requires
        0 <= k <= items.len(),
        item.1@.id != id,
        contains_id(items, id),
    ensures
        contains_id(items.insert(k, item), id),
        find_id(items.insert(k, item), id) == if find_id(items, id) < k {
            find_id(items, id)
        } else {
            find_id(items, id) + 1
        },
    decreases items.len(),
{
    let out = items.insert(k, item);
    lemma_find_id_in_range(items, id);
    let w = find_id(items, id);
    if w < k {
        assert(out[w] == items[w]);
        assert(contains_id(out, id));
        assert forall|j: int| 0 <= j < w implies #[trigger] out[j].1@.id != id by {
            assert(out[j] == items[j]);
            lemma_find_id_first(items, id, j);
        }
        lemma_find_id_of_scan(out, id, w);
    } else {
        assert(out[w + 1] == items[w]);
        assert(contains_id(out, id));
        assert forall|j: int| 0 <= j < w + 1 implies #[trigger] out[j].1@.id != id by {
            if j < k {
                assert(out[j] == items[j]);
                lemma_find_id_first(items, id, j);
            } else if j > k {
                assert(out[j] == items[j - 1]);
                lemma_find_id_first(items, id, j - 1);
            }
        }
        lemma_find_id_of_scan(out, id, w + 1);
    }
}

/// Everything head-side of `find_id` misses the identifier.
proof fn lemma_find_id_first(items: Seq<(u64, Entity)>, id: u128, j: int)
    requires
        0 <= j < find_id(items, id),
        contains_id(items, id),
    ensures
        items[j].1@.id != id,
    decreases items.len(),
{
    lemma_find_id_in_range(items, id);
    if j > 0 {
        assert(items[0].1@.id != id);
        assert(items.drop_first()[j - 1] == items[j]);
        let w = choose|i: int| 0 <= i < items.len() && #[trigger] items[i].1@.id == id;
        assert(items.drop_first()[w - 1] == items[w]);
        assert(contains_id(items.drop_first(), id));
        lemma_find_id_first(items.drop_first(), id, j - 1);
    }
}

/// A fresh identifier lands exactly at its insertion point.
proof fn lemma_find_id_of_fresh(items: Seq<(u64, Entity)>, k: int, item: (u64, Entity))
    requires
        0 <= k <= items.len(),
        !contains_id(items, item.1@.id),
    ensures
        contains_id(items.insert(k, item), item.1@.id),
        find_id(items.insert(k, item), item.1@.id) == k,
{
    let id = item.1@.id;
    let out = items.insert(k, item);
    assert(out[k].1@.id == id);
    assert forall|j: int| 0 <= j < k implies #[trigger] out[j].1@.id != id by {
        assert(out[j] == items[j]);
    }
    lemma_find_id_of_scan(out, id, k);
}

/// The internal sequence of a PRIORITY set filled from empty with the
/// entities of `es`, first element first.
pub open spec fn priority_filled(es: Seq<Entity>, stamp: u64) -> Seq<(u64, Entity)> {
    push_all(Seq::empty(), es, stamp, EntitySetMode::PRIORITY)
}

/// The PRIORITY round trip with its tie-break: filling an empty PRIORITY set
/// with entities carrying distinct identifiers holds each of them exactly
/// once, and of two entities with equal priority the earlier-pushed one sits
/// nearer the tail, so repeated pops serve equal priorities in insertion
/// order.
#[verifier::rlimit(50)]
pub proof fn lemma_priority_ties_pop_in_insertion_order(es: Seq<Entity>, stamp: u64)
    requires
        ids_distinct(es),
    ensures
        priority_filled(es, stamp).len() == es.len(),
        forall|i: int|
            0 <= i < es.len() ==> #[trigger] contains_id(priority_filled(es, stamp), es[i]@.id)
                && priority_filled(es, stamp)[find_id(
                priority_filled(es, stamp),
                es[i]@.id,
            )].1 == es[i],
        forall|p: int|
            0 <= p < priority_filled(es, stamp).len() ==> exists|i: int|
                0 <= i < es.len() && (#[trigger] priority_filled(es, stamp)[p]).1 == es[i],
        forall|i: int, j: int|
            0 <= i < j < es.len() && prio_rank(es[i]@.priority) == prio_rank(es[j]@.priority)
                ==> #[trigger] find_id(priority_filled(es, stamp), es[i]@.id) > #[trigger] find_id(
                priority_filled(es, stamp),
                es[j]@.id,
            ),
    decreases es.len(),
{
    let out = priority_filled(es, stamp);
    if es.len() == 0 {
    } else {
        let es0 = es.drop_last();
        assert(ids_distinct(es0)) by {
            assert forall|i: int, j: int| 0 <= i < j < es0.len() implies (
            #[trigger] es0[i])@.id != (#[trigger] es0[j])@.id by {
                assert(es0[i] == es[i] && es0[j] == es[j]);
            }
        }
        lemma_priority_ties_pop_in_insertion_order(es0, stamp);
        let inner = priority_filled(es0, stamp);
        let e = es.last();
        let last = es.len() - 1;
        let r = prio_rank(e@.priority);
        let k = prio_slot(inner, r);
        lemma_prio_slot_props(inner, r);
        assert(out == inner.insert(k, (stamp, e)));
        assert(!contains_id(inner, e@.id)) by {
            if contains_id(inner, e@.id) {
                lemma_find_id_in_range(inner, e@.id);
                let p = find_id(inner, e@.id);
                let i = choose|i: int| 0 <= i < es0.len() && inner[p].1 == es0[i];
                assert(es0[i] == es[i]);
                assert(es[i]@.id == es[last]@.id);
                assert(false);
            }
        }
        lemma_find_id_of_fresh(inner, k, (stamp, e));
        assert(find_id(out, es[last]@.id) == k && out[k].1 == e);
        assert forall|i: int| 0 <= i < es.len() implies #[trigger] contains_id(out, es[i]@.id)
            && out[find_id(out, es[i]@.id)].1 == es[i] by {
            if i < last {
                assert(es0[i] == es[i]);
                assert(contains_id(inner, es[i]@.id));
                lemma_find_id_in_range(inner, es[i]@.id);
                assert(es[i]@.id != e@.id);
                lemma_find_id_after_insert(inner, k, (stamp, e), es[i]@.id);
                let wold = find_id(inner, es[i]@.id);
                if wold < k {
                    assert(out[wold] == inner[wold]);
                } else {
                    assert(out[wold + 1] == inner[wold]);
                }
            } else {
                assert(es[i] == e);
                assert(contains_id(out, e@.id));
                assert(find_id(out, e@.id) == k);
                assert(out[k].1 == e);
            }
        }
        assert forall|p: int| 0 <= p < out.len() implies exists|i: int|
            0 <= i < es.len() && (#[trigger] out[p]).1 == es[i] by {
            if p < k {
                assert(out[p] == inner[p]);
                let i = choose|i: int| 0 <= i < es0.len() && inner[p].1 == es0[i];
                assert(es0[i] == es[i]);
                assert(0 <= i < es.len() && out[p].1 == es[i]);
            } else if p > k {
                assert(out[p] == inner[p - 1]);
                let i = choose|i: int| 0 <= i < es0.len() && inner[p - 1].1 == es0[i];
                assert(es0[i] == es[i]);
                assert(0 <= i < es.len() && out[p].1 == es[i]);
            } else {
                assert(out[p].1 == es[last]);
            }
        }
        assert forall|i: int, j: int|
            0 <= i < j < es.len() && prio_rank(es[i]@.priority) == prio_rank(
                es[j]@.priority,
            ) implies #[trigger] find_id(out, es[i]@.id) > #[trigger] find_id(
            out,
            es[j]@.id,
        ) by {
            if j < last {
                assert(es0[i] == es[i] && es0[j] == es[j]);
                lemma_find_id_in_range(inner, es[i]@.id);
                lemma_find_id_in_range(inner, es[j]@.id);
                lemma_find_id_after_insert(inner, k, (stamp, e), es[i]@.id);
                lemma_find_id_after_insert(inner, k, (stamp, e), es[j]@.id);
                assert(find_id(inner, es[i]@.id) > find_id(inner, es[j]@.id));
            } else {
                assert(es0[i] == es[i]);
                assert(contains_id(inner, es[i]@.id));
                lemma_find_id_in_range(inner, es[i]@.id);
                let wold = find_id(inner, es[i]@.id);
                assert(inner[wold].1 == es[i]);
                assert(prio_rank(inner[wold].1@.priority) == r);
                assert(wold >= k) by {
                    if wold < k {
                        assert(prio_rank(inner[wold].1@.priority) < r);
                    }
                }
                lemma_find_id_after_insert(inner, k, (stamp, e), es[i]@.id);
                assert(find_id(out, es[i]@.id) == wold + 1);
                assert(find_id(out, es[j]@.id) == k);
            }
        }
    }
}

/// At all times a bounded, well-formed set holds between zero and
/// `max_size` entities.
pub proof fn lemma_bounded_size(m: EntitySetModel)
    requires
        m.wf(),
    ensures
        m.max_size matches Some(b) ==> 0 <= m.items.len() <= b,
{
}

/// Whether `a` ranks strictly below `b`: `None` ranks below every explicit
/// priority.
fn prio_less(a: &Option<i32>, b: &Option<i32>) -> (r: bool)
    ensures
        r == (prio_rank(*a) < prio_rank(*b)),
{
    match (a, b) {
        (Option::None, Option::Some(_)) => true,
        (Option::Some(x), Option::Some(y)) => *x < *y,
        _ => false,
    }
}

/// A head-to-tail scan that stopped at the first index whose rank is at
/// least `r` has found `prio_slot`.
proof fn lemma_prio_slot_of_scan(items: Seq<(u64, Entity)>, r: int, i: int)
    requires
        0 <= i <= items.len(),
        forall|j: int| 0 <= j < i ==> prio_rank(#[trigger] items[j].1@.priority) < r,
        i < items.len() ==> prio_rank(items[i].1@.priority) >= r,
    ensures
        prio_slot(items, r) == i,
    decreases items.len(),
{
    if items.len() == 0 {
    } else if prio_rank(items[0].1@.priority) >= r {
        assert(i == 0);
    } else {
        assert(i >= 1);
        lemma_prio_slot_of_scan(items.drop_first(), r, i - 1);
    }
}

/// Inserting at `prio_slot` keeps the sequence sorted by rank.
proof fn lemma_prio_insert_sorted(items: Seq<(u64, Entity)>, r: int, i: int, item: (u64, Entity))
    requires
        prio_sorted(items),
        prio_rank(item.1@.priority) == r,
        0 <= i <= items.len(),
        forall|j: int| 0 <= j < i ==> prio_rank(#[trigger] items[j].1@.priority) < r,
        i < items.len() ==> prio_rank(items[i].1@.priority) >= r,
    ensures
        prio_sorted(items.insert(i, item)),
{
    let out = items.insert(i, item);
    assert forall|p: int, q: int| 0 <= p < q < out.len() implies prio_rank(
        out[p].1@.priority,
    ) <= prio_rank(out[q].1@.priority) by {
        if p < i && q < i {
        } else if p < i && q == i {
        } else if p < i && q > i {
            assert(out[q] == items[q - 1]);
            assert(prio_rank(items[q - 1].1@.priority) >= r);
        } else if p == i {
            assert(out[q] == items[q - 1]);
            assert(prio_rank(items[q - 1].1@.priority) >= r) by {
                if q - 1 > i - 1 + 1 {
                    assert(prio_rank(items[i].1@.priority) <= prio_rank(items[q - 1].1@.priority));
                }
            }
        } else {
            assert(out[p] == items[p - 1]);
            assert(out[q] == items[q - 1]);
        }
    }
}

} // verus!
