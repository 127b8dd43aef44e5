use vstd::prelude::*;

verus! {

/// A guest's stay: the bed is taken from `start` up to `end`.
#[derive(Debug, Clone, Copy, PartialEq, Eq, Structural)]
pub struct Guest {
    pub id: usize,
    pub start: usize,
    pub end: usize,
}

impl Guest {
    pub fn new(id: usize, start: usize, end: usize) -> (r: Guest)
        ensures
            r == (Guest { id, start, end }),
    {
        Guest { id, start, end }
    }
}

/// What a bed holds over one stretch of time: a given guest, or nothing.
#[derive(Debug, Clone, Copy, PartialEq, Eq, Structural)]
pub enum Stay {
    GuestId(usize),
    Empty,
}

/// Why a set of guests cannot be scheduled.
#[derive(Debug, Clone, Copy, PartialEq, Eq, Structural)]
pub enum ValidationError {
    /// The guest with this id does not end strictly after it starts.
    EmptyStay(usize),
    /// More than one guest has this id.
    DuplicateId(usize),
}

/// The ordered stays given to one bed.
#[derive(Debug)]
pub struct BedSchedule {
    pub bed_id: usize,
    pub schedule: Vec<Stay>,
}

impl BedSchedule {
    pub fn new(bed_id: usize, schedule: Vec<Stay>) -> (r: BedSchedule)
        ensures
            r.bed_id == bed_id,
            r.schedule@ == schedule@,
    {
        BedSchedule { bed_id, schedule }
    }
}

impl PartialEq for BedSchedule {
    fn eq(&self, o: &BedSchedule) -> (r: bool) {
        if self.bed_id != o.bed_id || self.schedule.len() != o.schedule.len() {
            return false;
        }
        let mut i: usize = 0;
        while i < self.schedule.len()
            invariant
                self.schedule@.len() == o.schedule@.len(),
                i <= self.schedule@.len(),
                forall|k: int| 0 <= k < i ==> self.schedule@[k] == o.schedule@[k],
            decreases self.schedule@.len() - i,
        {
            if self.schedule[i] != o.schedule[i] {
                return false;
            }
            i = i + 1;
        }
        proof {
            assert(self.schedule@ =~= o.schedule@);
        }
        true
    }
}

impl vstd::std_specs::cmp::PartialEqSpecImpl for BedSchedule {
    open spec fn obeys_eq_spec() -> bool {
        true
    }

    open spec fn eq_spec(&self, o: &BedSchedule) -> bool {
        self.bed_id == o.bed_id && self.schedule@ == o.schedule@
    }
}

} // verus!
