use vstd::prelude::*;

use crate::uid::fresh_uuid;

verus! {

/// A token flowing through the model: queues hold entities, resources seat
/// them. The identifier is drawn at creation and never changes; the creation
/// time is the virtual time the entity entered the model.
pub struct Entity {
    id: u128,
    name: String,
    creation_time: u64,
    priority: Option<i32>,
    submodel: Option<u128>,
}

/// The mathematical image of an [`Entity`].
pub struct EntityModel {
    pub id: u128,
    pub name: Seq<char>,
    pub creation_time: u64,
    pub priority: Option<i32>,
    pub submodel: Option<u128>,
}

impl View for Entity {
    type V = EntityModel;

    closed spec fn view(&self) -> EntityModel {
        EntityModel {
            id: self.id,
            name: self.name@,
            creation_time: self.creation_time,
            priority: self.priority,
            submodel: self.submodel,
        }
    }
}

impl Entity {
    /// Create an entity with no priority, stamped with the virtual time at
    /// which it enters the model. A fresh random identifier is drawn for it.
    pub fn new(name: &str, creation_time: u64) -> (e: Entity)
        ensures
            e@.name == name@,
            e@.creation_time == creation_time,
            e@.priority is None,
            e@.submodel is None,
    {
        Entity {
            id: fresh_uuid(),
            name: name.to_owned(),
            creation_time,
            priority: None,
            submodel: None,
        }
    }

    /// Create an entity that already carries a priority.
    pub fn new_with_priority(name: &str, priority: i32, creation_time: u64) -> (e: Entity)
        ensures
            e@.name == name@,
            e@.creation_time == creation_time,
            e@.priority == Some(priority),
            e@.submodel is None,
    {
        Entity {
            id: fresh_uuid(),
            name: name.to_owned(),
            creation_time,
            priority: Some(priority),
            submodel: None,
        }
    }

    /// The entity's stable identifier.
    pub fn id(&self) -> (r: u128)
        ensures
            r == self@.id,
    {
        self.id
    }

    /// The entity's human-readable name.
    pub fn name(&self) -> (r: &String)
        ensures
            r@ == self@.name,
    {
        &self.name
    }

    /// The entity's priority; higher pops earlier under the PRIORITY
    /// discipline, and `None` ranks below every explicit priority.
    pub fn priority(&self) -> (r: &Option<i32>)
        ensures
            *r == self@.priority,
    {
        &self.priority
    }

    /// Give the entity a priority.
    pub fn set_priority(&mut self, priority: i32)
        ensures
            final(self)@ == (EntityModel { priority: Some(priority), ..old(self)@ }),
    {
        self.priority = Some(priority);
    }

    /// Strip the entity of its priority.
    pub fn clear_priority(&mut self)
        ensures
            final(self)@ == (EntityModel { priority: None, ..old(self)@ }),
    {
        self.priority = None;
    }

    /// Attach an optional sub-model to the entity, returning the previous
    /// attachment. The kernel never inspects the value: it is an opaque
    /// handle the host maps to whatever composition object it keeps for
    /// this entity.
    pub fn attach_submodel(&mut self, submodel: u128) -> (r: Option<u128>)
        ensures
            final(self)@ == (EntityModel { submodel: Some(submodel), ..old(self)@ }),
            r == old(self)@.submodel,
    {
        let previous = self.submodel;
        self.submodel = Some(submodel);
        previous
    }

    /// The entity's sub-model handle, if one is attached.
    pub fn submodel(&self) -> (r: &Option<u128>)
        ensures
            *r == self@.submodel,
    {
        &self.submodel
    }

    /// The virtual time the entity has spent in the model, measured against
    /// the clock value `now` that the caller reads from the scheduler.
    pub fn time_since_creation(&self, now: u64) -> (r: u64)
        requires
            self@.creation_time <= now,
        ensures
            r == now - self@.creation_time,
    {
        now - self.creation_time
    }
}

} // verus!
