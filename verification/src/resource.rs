use vstd::prelude::*;

use crate::error::SdmError;
use crate::sat_add_u64;
use crate::uid::fresh_uuid;

verus! {

/// The mutable token store of a [`Resource`]: the count of currently free
/// tokens.
pub struct ResourceInner(pub u32);

/// A bounded pool of interchangeable tokens: a counting semaphore with
/// allocation statistics. `capacity` tokens exist; `tokens` of them are
/// currently free, and the invariant `free <= capacity` always holds.
pub struct Resource {
    name: String,
    id: u128,
    capacity: u32,
    tokens: ResourceInner,
    busy_time: u64,
    times_allocated: u64,
}

/// The mathematical image of a [`Resource`].
pub struct ResourceModel {
    pub name: Seq<char>,
    pub id: u128,
    pub capacity: u32,
    pub free: u32,
    pub busy_time: u64,
    pub times_allocated: u64,
}

impl View for Resource {
    type V = ResourceModel;

    closed spec fn view(&self) -> ResourceModel {
        ResourceModel {
            name: self.name@,
            id: self.id,
            capacity: self.capacity,
            free: self.tokens.0,
            busy_time: self.busy_time,
            times_allocated: self.times_allocated,
        }
    }
}

impl ResourceModel {
    /// Well-formedness: the free count never leaves `[0, capacity]`.
    pub open spec fn wf(self) -> bool {
        self.free <= self.capacity
    }

    /// The state after a successful allocation of `q` tokens.
    pub open spec fn allocated(self, q: u32) -> ResourceModel {
        ResourceModel {
            free: (self.free - q) as u32,
            times_allocated: sat_add_u64(self.times_allocated, 1),
            ..self
        }
    }

    /// The state after a successful release of `q` tokens.
    pub open spec fn released(self, q: u32) -> ResourceModel {
        ResourceModel { free: (self.free + q) as u32, ..self }
    }

    /// The state after one analytics tick: the tick counts as busy time
    /// whenever at least one token is held.
    pub open spec fn ticked(self) -> ResourceModel {
        if self.free < self.capacity {
            ResourceModel { busy_time: sat_add_u64(self.busy_time, 1), ..self }
        } else {
            self
        }
    }
}

impl Resource {
    /// Create a pool of `capacity` tokens, all of them initially free.
    pub fn new(name: &str, capacity: u32) -> (r: Resource)
        ensures
            r@.wf(),
            r@.name == name@,
            r@.capacity == capacity,
            r@.free == capacity,
            r@.busy_time == 0,
            r@.times_allocated == 0,
    {
        Resource {
            name: name.to_owned(),
            id: fresh_uuid(),
            capacity,
            tokens: ResourceInner(capacity),
            busy_time: 0,
            times_allocated: 0,
        }
    }

    /// Take `q` tokens out of the pool. Succeeds exactly when `q` tokens are
    /// free; a failed allocation reports `InsufficientResource` and changes
    /// nothing.
    pub fn allocate(&mut self, quantity: u32) -> (r: Result<(), SdmError>)
        requires
            old(self)@.wf(),
        ensures
            final(self)@.wf(),
            quantity <= old(self)@.free ==> r == Ok::<(), SdmError>(())
                && final(self)@ == old(self)@.allocated(quantity),
            quantity > old(self)@.free ==> r == Err::<(), SdmError>(
                SdmError::InsufficientResource,
            ) && final(self)@ == old(self)@,
    {
        if quantity <= self.tokens.0 {
            self.tokens.0 = self.tokens.0 - quantity;
            self.times_allocated = self.times_allocated.saturating_add(1);
            Ok(())
        } else {
            Err(SdmError::InsufficientResource)
        }
    }

    /// Hand `q` tokens back to the pool. Succeeds exactly when the pool has
    /// room for them; a failed release reports `OverRelease` and changes
    /// nothing.
    pub fn release(&mut self, quantity: u32) -> (r: Result<(), SdmError>)
        requires
            old(self)@.wf(),
        ensures
            final(self)@.wf(),
            old(self)@.free + quantity <= old(self)@.capacity ==> r == Ok::<(), SdmError>(())
                && final(self)@ == old(self)@.released(quantity),
            old(self)@.free + quantity > old(self)@.capacity ==> r == Err::<(), SdmError>(
                SdmError::OverRelease,
            ) && final(self)@ == old(self)@,
    {
        if quantity <= self.capacity - self.tokens.0 {
            self.tokens.0 = self.tokens.0 + quantity;
            Ok(())
        } else {
            Err(SdmError::OverRelease)
        }
    }

    /// How many tokens are currently held: `capacity - free`.
    pub fn n_allocated(&self) -> (r: u32)
        requires
            self@.wf(),
        ensures
            r == self@.capacity - self@.free,
    {
        self.capacity - self.tokens.0
    }

    /// The pool's name.
    pub fn name(&self) -> (r: &String)
        ensures
            r@ == self@.name,
    {
        &self.name
    }

    /// The total number of tokens.
    pub fn capacity(&self) -> (r: u32)
        ensures
            r == self@.capacity,
    {
        self.capacity
    }

    /// The number of currently free tokens.
    pub fn free(&self) -> (r: u32)
        ensures
            r == self@.free,
    {
        self.tokens.0
    }

    /// One analytics tick: a tick during which any token is held adds one
    /// tick to the cumulative busy time.
    pub fn update_analytics(&mut self)
        ensures
            final(self)@ == old(self)@.ticked(),
    {
        if self.tokens.0 < self.capacity {
            self.busy_time = self.busy_time.saturating_add(1);
        }
    }

    /// Cumulative busy time in ticks; the numerator of the allocation rate.
    pub fn busy_time(&self) -> (r: u64)
        ensures
            r == self@.busy_time,
    {
        self.busy_time
    }

    /// How many allocations have succeeded; the numerator of the average
    /// allocation count.
    pub fn times_allocated(&self) -> (r: u64)
        ensures
            r == self@.times_allocated,
    {
        self.times_allocated
    }
}

/// The free count stays within `[0, capacity]` and the held count is its
/// complement: for every well-formed resource, `n_allocated` is exactly
/// `capacity - free`.
pub proof fn lemma_resource_accounting(m: ResourceModel)
    requires
        m.wf(),
    ensures
        0 <= m.free <= m.capacity,
        m.capacity - m.free >= 0,
{
}

/// Allocating `q` tokens and then releasing the same `q` returns the free
/// count to its prior value, and the release is always accepted.
pub proof fn lemma_allocate_release_round_trip(m: ResourceModel, q: u32)
    requires
        m.wf(),
        q <= m.free,
    ensures
        m.allocated(q).free + q <= m.allocated(q).capacity,
        m.allocated(q).released(q).free == m.free,
        m.allocated(q).released(q).capacity == m.capacity,
{
}

} // verus!
