use vstd::prelude::*;

use crate::uid::fresh_uuid;

verus! {

/// A recurring durational activity. A running process takes part in every
/// event step: its `on_start` hook runs and a duration is sampled (both host
/// side), and the kernel schedules the matching finish marker; when the
/// marker fires the host runs the `on_end` hook. The `duration` field is the
/// last duration handed to the process, kept for models that use a constant
/// duration instead of a sampled one.
pub struct Process {
    name: String,
    pid: u128,
    duration: u64,
    active: bool,
}

/// The mathematical image of a [`Process`].
pub struct ProcessModel {
    pub name: Seq<char>,
    pub pid: u128,
    pub duration: u64,
    pub active: bool,
}

impl View for Process {
    type V = ProcessModel;

    closed spec fn view(&self) -> ProcessModel {
        ProcessModel {
            name: self.name@,
            pid: self.pid,
            duration: self.duration,
            active: self.active,
        }
    }
}

impl Process {
    /// Create a process; a fresh random identifier is drawn for it. It starts
    /// out inactive.
    pub fn new(name: &str, duration: u64) -> (p: Process)
        ensures
            p@.name == name@,
            p@.duration == duration,
            !p@.active,
    {
        Process { name: name.to_owned(), pid: fresh_uuid(), duration, active: false }
    }

    /// The process's identifier.
    pub fn pid(&self) -> (r: u128)
        ensures
            r == self@.pid,
    {
        self.pid
    }

    /// The process's name.
    pub fn name(&self) -> (r: &String)
        ensures
            r@ == self@.name,
    {
        &self.name
    }

    /// The stored duration.
    pub fn duration(&self) -> (r: u64)
        ensures
            r == self@.duration,
    {
        self.duration
    }

    /// Store a new duration.
    pub fn change_duration(&mut self, duration: u64)
        ensures
            final(self)@ == (ProcessModel { duration, ..old(self)@ }),
    {
        self.duration = duration;
    }

    /// Whether the process is flagged active.
    pub fn is_active(&self) -> (r: bool)
        ensures
            r == self@.active,
    {
        self.active
    }

    /// Flip the active flag.
    pub fn toggle_activate(&mut self)
        ensures
            final(self)@ == (ProcessModel { active: !old(self)@.active, ..old(self)@ }),
    {
        self.active = !self.active;
    }
}

} // verus!
