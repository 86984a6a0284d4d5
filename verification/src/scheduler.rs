//! The scheduler's bookkeeping: the state of every unit of work, one unit
//! for each lane and tile, and the cap on how many run at a time.

use vstd::prelude::*;

verus! {

/// Number of units that run at a time unless the caller says otherwise.
pub const DEFAULT_CAP: usize = 40;

/// The state of one unit of work.
#[derive(Debug, Clone, Copy, PartialEq, Eq, Structural)]
pub enum UnitState {
    /// Waits for a slot.
    Pending,
    /// Holds a slot and decodes its tile.
    Decoding,
    /// Holds a slot; its records are all handed to the writer stage.
    Draining,
    /// Has let go of its slot and its files.
    Done,
}

/// Whether a unit in state `state` holds a slot.
pub open spec fn holds_slot(state: UnitState) -> bool {
    state == UnitState::Decoding || state == UnitState::Draining
}

/// The state that follows `state` when the unit finishes its present step:
/// a decoding unit drains, a draining unit is done. A pending unit moves
/// only when it is given a slot, and a unit that is done stays so.
pub open spec fn next_state(state: UnitState) -> UnitState {
    match state {
        UnitState::Pending => UnitState::Pending,
        UnitState::Decoding => UnitState::Draining,
        UnitState::Draining => UnitState::Done,
        UnitState::Done => UnitState::Done,
    }
}

/// Number of units of `states` that hold a slot.
pub open spec fn count_active(states: Seq<UnitState>) -> nat
    decreases states.len(),
{
    if states.len() == 0 {
        0
    } else {
        count_active(states.drop_last()) + if holds_slot(states.last()) {
            1nat
        } else {
            0nat
        }
    }
}

/// Changing the state of one unit changes the number of units that hold a
/// slot by that unit alone.
pub proof fn lemma_count_active_update(states: Seq<UnitState>, unit: int, state: UnitState)
    requires
        0 <= unit < states.len(),
    ensures
        count_active(states.update(unit, state)) + (if holds_slot(states[unit]) {
            1int
        } else {
            0int
        }) == count_active(states) + (if holds_slot(state) {
            1int
        } else {
            0int
        }),
    decreases states.len(),
{
    let updated = states.update(unit, state);
    if unit == states.len() - 1 {
        assert(updated.drop_last() =~= states.drop_last());
    } else {
        assert(updated.drop_last() =~= states.drop_last().update(unit, state));
        lemma_count_active_update(states.drop_last(), unit, state);
    }
}

/// No more units hold a slot than there are units.
pub proof fn lemma_count_active_bound(states: Seq<UnitState>)
    ensures
        count_active(states) <= states.len(),
    decreases states.len(),
{
    if states.len() > 0 {
        lemma_count_active_bound(states.drop_last());
    }
}

/// Number of steps that a unit in state `state` has before it is done.
pub open spec fn steps_of(state: UnitState) -> nat {
    match state {
        UnitState::Pending => 3,
        UnitState::Decoding => 2,
        UnitState::Draining => 1,
        UnitState::Done => 0,
    }
}

/// Number of steps that the units of `states` have before all are done.
pub open spec fn steps_left(states: Seq<UnitState>) -> nat
    decreases states.len(),
{
    if states.len() == 0 {
        0
    } else {
        steps_left(states.drop_last()) + steps_of(states.last())
    }
}

/// Changing the state of one unit changes the number of steps left by
/// that unit's steps alone.
pub proof fn lemma_steps_left_update(states: Seq<UnitState>, unit: int, state: UnitState)
    requires
        0 <= unit < states.len(),
    ensures
        steps_left(states.update(unit, state)) + steps_of(states[unit]) == steps_left(states)
            + steps_of(state),
    decreases states.len(),
{
    let updated = states.update(unit, state);
    if unit == states.len() - 1 {
        assert(updated.drop_last() =~= states.drop_last());
    } else {
        assert(updated.drop_last() =~= states.drop_last().update(unit, state));
        lemma_steps_left_update(states.drop_last(), unit, state);
    }
}

/// Where some unit holds a slot, there is a unit that does.
pub proof fn lemma_active_unit(states: Seq<UnitState>) -> (unit: int)
    requires
        count_active(states) > 0,
    ensures
        0 <= unit < states.len(),
        holds_slot(states[unit]),
    decreases states.len(),
{
    if holds_slot(states.last()) {
        states.len() - 1
    } else {
        lemma_active_unit(states.drop_last())
    }
}

/// Where no unit holds a slot, none decodes or drains; where no step is
/// left, every unit is done, and the other way round.
pub proof fn lemma_idle_and_done(states: Seq<UnitState>)
    ensures
        count_active(states) == 0 <==> forall|u: int|
            0 <= u < states.len() ==> !holds_slot(#[trigger] states[u]),
        steps_left(states) == 0 <==> forall|u: int|
            0 <= u < states.len() ==> #[trigger] states[u] == UnitState::Done,
    decreases states.len(),
{
    if states.len() > 0 {
        let head = states.drop_last();
        lemma_idle_and_done(head);
        assert(states.last() == states[states.len() - 1]);
        if forall|u: int| 0 <= u < states.len() ==> !holds_slot(#[trigger] states[u]) {
            assert forall|u: int| 0 <= u < head.len() implies !holds_slot(#[trigger] head[u]) by {
                assert(head[u] == states[u]);
            }
        }
        if count_active(states) == 0 {
            assert forall|u: int| 0 <= u < states.len() implies !holds_slot(#[trigger] states[u]) by {
                if u < head.len() {
                    assert(head[u] == states[u]);
                }
            }
        }
        if forall|u: int| 0 <= u < states.len() ==> #[trigger] states[u] == UnitState::Done {
            assert forall|u: int| 0 <= u < head.len() implies #[trigger] head[u]
                == UnitState::Done by {
                assert(head[u] == states[u]);
            }
        }
        if steps_left(states) == 0 {
            assert forall|u: int| 0 <= u < states.len() implies #[trigger] states[u]
                == UnitState::Done by {
                if u < head.len() {
                    assert(head[u] == states[u]);
                }
            }
        }
    }
}

/// The units of a run and the slots they hold.
#[derive(Debug)]
pub struct Scheduler {
    /// Largest number of units that hold a slot at a time.
    pub cap: usize,
    /// The state of each unit.
    pub states: Vec<UnitState>,
    /// Number of units that hold a slot.
    pub active: usize,
    /// Position of the first unit that still waits for a slot.
    pub next_pending: usize,
}

impl Scheduler {
    /// What holds of a scheduler at all times: the units that hold a slot
    /// are counted right and are no more than the cap, and the units that
    /// wait are those from `next_pending` on.
    pub open spec fn well_formed(&self) -> bool {
        &&& self.active == count_active(self.states@)
        &&& self.active <= self.cap
        &&& self.next_pending <= self.states@.len()
        &&& forall|u: int|
            0 <= u < self.states@.len() ==> ((#[trigger] self.states@[u]) == UnitState::Pending
                <==> u >= self.next_pending)
    }

    /// Whether a waiting unit can be given a slot.
    pub open spec fn can_start(&self) -> bool {
        self.active < self.cap && self.next_pending < self.states@.len()
    }

    /// A scheduler for `units` units, all waiting, of which at most `cap`
    /// run at a time.
    pub fn new(cap: usize, units: usize) -> (scheduler: Scheduler)
        ensures
            scheduler.well_formed(),
            scheduler.cap == cap,
            scheduler.active == 0,
            scheduler.next_pending == 0,
            scheduler.states@.len() == units,
            forall|u: int| 0 <= u < units ==> #[trigger] scheduler.states@[u] == UnitState::Pending,
    {
        let mut states: Vec<UnitState> = Vec::new();
        let mut u: usize = 0;
        while u < units
            invariant
                u <= units,
                states@.len() == u,
                count_active(states@) == 0,
                forall|k: int| 0 <= k < u ==> #[trigger] states@[k] == UnitState::Pending,
            decreases units - u,
        {
            let ghost before = states@;
            states.push(UnitState::Pending);
            assert(states@.drop_last() =~= before);
            u = u + 1;
        }
        Scheduler { cap, states, active: 0, next_pending: 0 }
    }

    /// Gives the first waiting unit a slot, if one is free, and says which
    /// unit it is; that unit then decodes.
    pub fn start_next(&mut self) -> (started: Option<usize>)
        requires
            old(self).well_formed(),
        ensures
            final(self).well_formed(),
            final(self).cap == old(self).cap,
            match started {
                Some(unit) => {
                    &&& old(self).can_start()
                    &&& unit == old(self).next_pending
                    &&& final(self).states@ == old(self).states@.update(
                        unit as int,
                        UnitState::Decoding,
                    )
                    &&& final(self).active == old(self).active + 1
                    &&& final(self).next_pending == old(self).next_pending + 1
                    &&& steps_left(final(self).states@) + 1 == steps_left(old(self).states@)
                },
                None => !old(self).can_start() && *final(self) == *old(self),
            },
    {
        if self.active < self.cap && self.next_pending < self.states.len() {
            let unit = self.next_pending;
            proof {
                lemma_count_active_update(self.states@, unit as int, UnitState::Decoding);
                lemma_steps_left_update(self.states@, unit as int, UnitState::Decoding);
            }
            self.states.set(unit, UnitState::Decoding);
            self.active = self.active + 1;
            self.next_pending = self.next_pending + 1;
            Some(unit)
        } else {
            None
        }
    }

    /// Moves `unit` on when it finishes its present step, and says what
    /// state it is in then. A unit that becomes done lets go of its slot.
    pub fn advance(&mut self, unit: usize) -> (state: UnitState)
        requires
            old(self).well_formed(),
            unit < old(self).states@.len(),
        ensures
            final(self).well_formed(),
            final(self).cap == old(self).cap,
            final(self).next_pending == old(self).next_pending,
            state == next_state(old(self).states@[unit as int]),
            final(self).states@ == old(self).states@.update(unit as int, state),
            final(self).active == if old(self).states@[unit as int] == UnitState::Draining {
                old(self).active - 1
            } else {
                old(self).active as int
            },
            steps_left(final(self).states@) + (if holds_slot(old(self).states@[unit as int]) {
                1int
            } else {
                0int
            }) == steps_left(old(self).states@),
    {
        let state = match self.states[unit] {
            UnitState::Pending => UnitState::Pending,
            UnitState::Decoding => UnitState::Draining,
            UnitState::Draining => UnitState::Done,
            UnitState::Done => UnitState::Done,
        };
        proof {
            lemma_count_active_update(self.states@, unit as int, state);
            lemma_steps_left_update(self.states@, unit as int, state);
            lemma_count_active_bound(self.states@);
        }
        if let UnitState::Draining = self.states[unit] {
            self.active = self.active - 1;
        }
        self.states.set(unit, state);
        state
    }

    /// Tells whether every unit is done.
    pub fn is_finished(&self) -> (finished: bool)
        requires
            self.well_formed(),
        ensures
            finished == (self.active == 0 && self.next_pending == self.states@.len()),
            finished == (steps_left(self.states@) == 0),
            finished == (forall|u: int|
                0 <= u < self.states@.len() ==> #[trigger] self.states@[u] == UnitState::Done),
    {
        proof {
            lemma_idle_and_done(self.states@);
            if self.active == 0 && self.next_pending == self.states@.len() {
                assert forall|u: int| 0 <= u < self.states@.len() implies #[trigger] self.states@[u]
                    == UnitState::Done by {
                    assert(!holds_slot(self.states@[u]));
                }
            }
            if steps_left(self.states@) == 0 {
                if self.next_pending < self.states@.len() {
                    assert(self.states@[self.next_pending as int] == UnitState::Pending);
                }
            }
        }
        self.active == 0 && self.next_pending == self.states.len()
    }
}

/// A run that is not finished can go on, as long as the cap is not zero:
/// either a waiting unit can be given a slot, or some unit holds a slot
/// and will let go of it when it is moved on. Each such move takes one
/// of the steps that are left, so that every unit is done after as many
/// moves as there are steps.
pub proof fn lemma_scheduler_progress(scheduler: &Scheduler) -> (unit: int)
    requires
        scheduler.well_formed(),
        scheduler.cap > 0,
        steps_left(scheduler.states@) > 0,
    ensures
        scheduler.can_start() || (0 <= unit < scheduler.states@.len() && holds_slot(
            scheduler.states@[unit],
        )),
{
    lemma_idle_and_done(scheduler.states@);
    if scheduler.active > 0 {
        lemma_active_unit(scheduler.states@)
    } else {
        if scheduler.next_pending == scheduler.states@.len() {
            assert forall|u: int| 0 <= u < scheduler.states@.len() implies #[trigger] scheduler.states@[u]
                == UnitState::Done by {
                assert(!holds_slot(scheduler.states@[u]));
            }
        }
        0
    }
}

} // verus!
