use vstd::prelude::*;

use crate::types::{InputPinHandler, OutputPinHandler, StateType, StateValue};

verus! {

/// Application state: a map from string keys to state values, kept as a list
/// of entries with distinct keys.
pub struct AppState {
    entries: Vec<(String, StateType)>,
}

impl AppState {
    #[verifier::type_invariant]
    spec fn keys_distinct(&self) -> bool {
        forall|i: int, j: int|
            0 <= i < j < self.entries.len() ==> self.entries@[i].0@ != self.entries@[j].0@
    }

    spec fn key_at(&self, i: int, k: Seq<char>) -> bool {
        0 <= i < self.entries.len() && self.entries@[i].0@ == k
    }

    pub fn new() -> (r: AppState)
        ensures
            r@ == Map::<Seq<char>, StateValue>::empty(),
    {
        let r = AppState { entries: Vec::new() };
        assert(r@ =~= Map::<Seq<char>, StateValue>::empty());
        r
    }

    fn position(&self, key: &String) -> (r: Option<usize>)
        ensures
            match r {
                Some(i) => self.key_at(i as int, key@),
                None => forall|i: int| 0 <= i < self.entries.len() ==> self.entries@[i].0@ != key@,
            },
    {
        let mut i: usize = 0;
        while i < self.entries.len()
            invariant
                i <= self.entries.len(),
                forall|j: int| 0 <= j < i ==> self.entries@[j].0@ != key@,
            decreases self.entries.len() - i,
        {
            if self.entries[i].0.eq(key) {
                return Some(i);
            }
            i += 1;
        }
        None
    }

    /// The value stored under `key`, if any.
    pub fn get(&self, key: &String) -> (r: Option<&StateType>)
        ensures
            r is Some == self@.contains_key(key@),
            r is Some ==> r->0@ == self@[key@],
    {
        proof {
            use_type_invariant(self);
        }
        match self.position(key) {
            Some(i) => {
                assert(self.key_at(i as int, key@));
                Some(&self.entries[i].1)
            },
            None => None,
        }
    }

    pub fn contains_key(&self, key: &String) -> (r: bool)
        ensures
            r == self@.contains_key(key@),
    {
        self.get(key).is_some()
    }

    /// Stores `value` under `key`, replacing what was there.
    pub fn insert(&mut self, key: String, value: StateType)
        ensures
            final(self)@ == old(self)@.insert(key@, value@),
    {
        proof {
            use_type_invariant(&*self);
        }
        let ghost k = key@;
        let ghost v = value@;
        let ghost before = *self;
        match self.position(&key) {
            Some(i) => {
                let mut entries = Vec::new();
                std::mem::swap(&mut entries, &mut self.entries);
                entries.set(i, (key, value));
                self.entries = entries;
                proof {
                    assert forall|a: int, b: int|
                        0 <= a < b < self.entries.len() implies self.entries@[a].0@
                        != self.entries@[b].0@ by {
                        assert(before.entries@[a].0@ != before.entries@[b].0@);
                    }
                    assert(self.key_at(i as int, k));
                    assert forall|q: Seq<char>| #[trigger] self@.contains_key(q) == before@.insert(
                        k,
                        v,
                    ).contains_key(q) by {
                        if q != k {
                            if self@.contains_key(q) {
                                let j = choose|j: int| self.key_at(j, q);
                                assert(before.key_at(j, q));
                            }
                            if before@.contains_key(q) {
                                let j = choose|j: int| before.key_at(j, q);
                                assert(self.key_at(j, q));
                            }
                        }
                    }
                    assert forall|q: Seq<char>| #[trigger] self@.contains_key(q) implies self@[q]
                        == before@.insert(k, v)[q] by {
                        let j = choose|j: int| self.key_at(j, q);
                        if q != k {
                            assert(before.key_at(j, q));
                            let j0 = choose|j0: int| before.key_at(j0, q);
                            assert(j0 == j);
                        } else {
                            assert(j == i);
                        }
                    }
                    assert(self@ =~= before@.insert(k, v));
                }
            },
            None => {
                let ghost n = self.entries.len() as int;
                let mut entries = Vec::new();
                std::mem::swap(&mut entries, &mut self.entries);
                entries.push((key, value));
                self.entries = entries;
                proof {
                    assert(self.key_at(n, k));
                    assert forall|q: Seq<char>| #[trigger] self@.contains_key(q) == before@.insert(
                        k,
                        v,
                    ).contains_key(q) by {
                        if q != k {
                            if self@.contains_key(q) {
                                let j = choose|j: int| self.key_at(j, q);
                                assert(before.key_at(j, q));
                            }
                            if before@.contains_key(q) {
                                let j = choose|j: int| before.key_at(j, q);
                                assert(self.key_at(j, q));
                            }
                        }
                    }
                    assert forall|q: Seq<char>| #[trigger] self@.contains_key(q) implies self@[q]
                        == before@.insert(k, v)[q] by {
                        let j = choose|j: int| self.key_at(j, q);
                        if q != k {
                            assert(before.key_at(j, q));
                            let j0 = choose|j0: int| before.key_at(j0, q);
                            assert(j0 == j);
                        } else {
                            assert(j == n);
                        }
                    }
                    assert(self@ =~= before@.insert(k, v));
                }
            },
        }
    }

    /// The entries, in the order in which their keys were first stored.
    pub fn entries(&self) -> (r: &Vec<(String, StateType)>)
        ensures
            forall|i: int|
                0 <= i < r.len() ==> self@.contains_key((#[trigger] r@[i]).0@) && self@[r@[i].0@]
                    == r@[i].1@,
            forall|q: Seq<char>|
                #![trigger self@.contains_key(q)]
                self@.contains_key(q) ==> exists|i: int| 0 <= i < r.len() && r@[i].0@ == q,
    {
        proof {
            use_type_invariant(self);
            assert forall|i: int| 0 <= i < self.entries.len() implies self@.contains_key(
                (#[trigger] self.entries@[i]).0@,
            ) && self@[self.entries@[i].0@] == self.entries@[i].1@ by {
                assert(self.key_at(i, self.entries@[i].0@));
            }
            assert forall|q: Seq<char>| self@.contains_key(q) implies exists|i: int|
                0 <= i < self.entries.len() && self.entries@[i].0@ == q by {
                let j = choose|j: int| self.key_at(j, q);
                assert(self.key_at(j, q));
            }
        }
        &self.entries
    }
}

impl View for AppState {
    type V = Map<Seq<char>, StateValue>;

    closed spec fn view(&self) -> Map<Seq<char>, StateValue> {
        Map::new(
            |k: Seq<char>| exists|i: int| self.key_at(i, k),
            |k: Seq<char>| self.entries@[choose|i: int| self.key_at(i, k)].1@,
        )
    }
}

/// The mathematical value of an [`Environment`]: the application state, and
/// for each pin number the snapshot of the input or output pin, if registered.
pub struct EnvView {
    pub app: Map<Seq<char>, StateValue>,
    pub inputs: Seq<Option<InputPinHandler>>,
    pub outputs: Seq<Option<OutputPinHandler>>,
}

/// The world state with no application state and no registered pin.
pub open spec fn empty_env() -> EnvView {
    EnvView {
        app: Map::empty(),
        inputs: Seq::new(256, |p: int| None),
        outputs: Seq::new(256, |p: int| None),
    }
}

/// The world state shared by the dispatcher, the predicates and the actions:
/// the application state and the registered digital pins.
pub struct Environment {
    input_gpios: [Option<InputPinHandler>; 256],
    output_gpios: [Option<OutputPinHandler>; 256],
    app_state: AppState,
}

impl View for Environment {
    type V = EnvView;

    closed spec fn view(&self) -> EnvView {
        EnvView { app: self.app_state@, inputs: self.input_gpios@, outputs: self.output_gpios@ }
    }
}

impl Environment {
    /// An environment with no application state and no pin.
    pub fn new() -> (r: Environment)
        ensures
            r@ == empty_env(),
    {
        let r = Environment { input_gpios: [None; 256], output_gpios: [None; 256], app_state: AppState::new() };
        assert(r@.inputs =~= empty_env().inputs);
        assert(r@.outputs =~= empty_env().outputs);
        r
    }

    /// There is a slot for every pin number, in both pin tables.
    pub proof fn lemma_pin_tables(&self)
        ensures
            self@.inputs.len() == 256,
            self@.outputs.len() == 256,
    {
    }

    pub fn input_pin(&self, pin: u8) -> (r: Option<InputPinHandler>)
        ensures
            r == self@.inputs[pin as int],
    {
        self.input_gpios[pin as usize]
    }

    pub fn output_pin(&self, pin: u8) -> (r: Option<OutputPinHandler>)
        ensures
            r == self@.outputs[pin as int],
    {
        self.output_gpios[pin as usize]
    }

    /// Registers the input pin `pin`, first seen at `now`, unless it is
    /// registered already. Returns whether it was new.
    pub fn add_input_gpio(&mut self, pin: u8, now: u64) -> (added: bool)
        ensures
            added == old(self)@.inputs[pin as int] is None,
            final(self)@.app == old(self)@.app,
            final(self)@.outputs == old(self)@.outputs,
            final(self)@.inputs == if added {
                old(self)@.inputs.update(pin as int, Some(InputPinHandler::new_spec(now)))
            } else {
                old(self)@.inputs
            },
    {
        if self.input_gpios[pin as usize].is_some() {
            return false;
        }
        self.input_gpios[pin as usize] = Some(InputPinHandler::new(now));
        proof {
            assert(self@.inputs =~= old(self)@.inputs.update(pin as int, Some(InputPinHandler::new_spec(now))));
        }
        true
    }

    /// Registers the output pin `pin`, opened at `now`, unless it is
    /// registered already. Returns whether it was new, that is whether the
    /// caller must open it and drive it to its safe level.
    pub fn add_output_gpio(&mut self, pin: u8, now: u64) -> (added: bool)
        ensures
            added == old(self)@.outputs[pin as int] is None,
            final(self)@.app == old(self)@.app,
            final(self)@.inputs == old(self)@.inputs,
            final(self)@.outputs == if added {
                old(self)@.outputs.update(pin as int, Some(OutputPinHandler::new_spec(now)))
            } else {
                old(self)@.outputs
            },
    {
        if self.output_gpios[pin as usize].is_some() {
            return false;
        }
        self.output_gpios[pin as usize] = Some(OutputPinHandler::new(now));
        proof {
            assert(self@.outputs =~= old(self)@.outputs.update(pin as int, Some(OutputPinHandler::new_spec(now))));
        }
        true
    }

    /// Records a new sample of the input pin `pin`, if it is registered.
    pub fn refresh_input(&mut self, pin: u8, level: bool, now: u64)
        ensures
            final(self)@.app == old(self)@.app,
            final(self)@.outputs == old(self)@.outputs,
            final(self)@.inputs == match old(self)@.inputs[pin as int] {
                Some(h) => old(self)@.inputs.update(pin as int, Some(h.sampled(level, now))),
                None => old(self)@.inputs,
            },
    {
        if let Some(mut h) = self.input_gpios[pin as usize] {
            h.record_sample(level, now);
            self.input_gpios[pin as usize] = Some(h);
            proof {
                assert(self@.inputs =~= old(self)@.inputs.update(pin as int, Some(h)));
            }
        }
    }

    /// Commands the output pin `pin` to `state` at `now`. Returns `None` if the
    /// pin is not registered, else whether its state changed, that is whether
    /// the physical pin must be driven.
    pub fn command_output(&mut self, pin: u8, state: bool, now: u64) -> (r: Option<bool>)
        ensures
            final(self)@.app == old(self)@.app,
            final(self)@.inputs == old(self)@.inputs,
            match old(self)@.outputs[pin as int] {
                Some(h) => r == Some(state != h.current_state) && final(self)@.outputs
                    == old(self)@.outputs.update(pin as int, Some(h.commanded(state, now))),
                None => r is None && final(self)@.outputs == old(self)@.outputs,
            },
    {
        if let Some(mut h) = self.output_gpios[pin as usize] {
            let changed = h.change_state(state, now);
            self.output_gpios[pin as usize] = Some(h);
            proof {
                assert(self@.outputs =~= old(self)@.outputs.update(pin as int, Some(h)));
            }
            Some(changed)
        } else {
            None
        }
    }

    /// The application state.
    pub fn app_state(&self) -> (r: &AppState)
        ensures
            r@ == self@.app,
    {
        &self.app_state
    }

    /// Stores `value` under `key` in the application state.
    pub fn set_state(&mut self, key: String, value: StateType)
        ensures
            final(self)@.app == old(self)@.app.insert(key@, value@),
            final(self)@.inputs == old(self)@.inputs,
            final(self)@.outputs == old(self)@.outputs,
    {
        self.app_state.insert(key, value);
    }

    /// Replaces the whole application state.
    pub fn replace_app_state(&mut self, state: AppState) -> (previous: AppState)
        ensures
            final(self)@.app == state@,
            previous@ == old(self)@.app,
            final(self)@.inputs == old(self)@.inputs,
            final(self)@.outputs == old(self)@.outputs,
    {
        let mut state = state;
        std::mem::swap(&mut state, &mut self.app_state);
        state
    }
}

} // verus!
