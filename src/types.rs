use vstd::prelude::*;

verus! {

/// A value held in the application state: a string, a boolean or a whole number.
pub enum StateType {
    Str(String),
    Bool(bool),
    Int(i64),
}

/// The mathematical value of a [`StateType`].
pub enum StateValue {
    Str(Seq<char>),
    Bool(bool),
    Int(int),
}

impl View for StateType {
    type V = StateValue;

    open spec fn view(&self) -> StateValue {
        match self {
            StateType::Str(s) => StateValue::Str(s@),
            StateType::Bool(b) => StateValue::Bool(*b),
            StateType::Int(i) => StateValue::Int(*i as int),
        }
    }
}

/// What `str::parse::<i64>` yields on a text, `None` where it reports an error.
pub uninterp spec fn parsed_i64(s: Seq<char>) -> Option<i64>;

/// Relies on `str::parse::<i64>`: its outcome depends on the characters alone,
/// and an empty text is an error.
#[verifier::external_body]
fn parse_i64(s: &str) -> (r: Option<i64>)
    ensures
        r == parsed_i64(s@),
        s@.len() == 0 ==> r is None,
{
    s.parse::<i64>().ok()
}

/// The default value of the variant of `v`: empty string, `false` or zero.
pub open spec fn default_of(v: StateValue) -> StateValue {
    match v {
        StateValue::Str(_) => StateValue::Str(Seq::empty()),
        StateValue::Bool(_) => StateValue::Bool(false),
        StateValue::Int(_) => StateValue::Int(0),
    }
}

/// The truth value of `v`: a non-empty string, `true`, or a non-zero number.
pub open spec fn truthy(v: StateValue) -> bool {
    match v {
        StateValue::Str(s) => s.len() > 0,
        StateValue::Bool(b) => b,
        StateValue::Int(i) => i != 0,
    }
}

/// The number that `v` stands for: a string that parses as one, else zero;
/// one or zero for a boolean; a number as it is.
pub open spec fn number_of(v: StateValue) -> int {
    match v {
        StateValue::Str(s) => match parsed_i64(s) {
            Some(n) => n as int,
            None => 0,
        },
        StateValue::Bool(b) => if b { 1 } else { 0 },
        StateValue::Int(i) => i,
    }
}

impl StateType {
    pub fn as_default(&self) -> (r: StateType)
        ensures
            r@ == default_of(self@),
    {
        match self {
            StateType::Str(_) => StateType::Str(String::new()),
            StateType::Bool(_) => StateType::Bool(false),
            StateType::Int(_) => StateType::Int(0),
        }
    }

    pub fn as_bool(&self) -> (r: bool)
        ensures
            r == truthy(self@),
    {
        match self {
            StateType::Str(s) => !s.as_str().is_empty(),
            StateType::Bool(b) => *b,
            StateType::Int(i) => *i != 0,
        }
    }

    pub fn as_int(&self) -> (r: i64)
        ensures
            r as int == number_of(self@),
    {
        match self {
            StateType::Str(s) => match parse_i64(s.as_str()) {
                Some(n) => n,
                None => 0,
            },
            StateType::Bool(b) => if *b { 1 } else { 0 },
            StateType::Int(i) => *i,
        }
    }

    /// A copy of this value.
    pub fn duplicate(&self) -> (r: StateType)
        ensures
            r@ == self@,
    {
        match self {
            StateType::Str(s) => StateType::Str(s.clone()),
            StateType::Bool(b) => StateType::Bool(*b),
            StateType::Int(i) => StateType::Int(*i),
        }
    }
}

impl PartialEq for StateType {
    fn eq(&self, other: &StateType) -> (r: bool)
        ensures
            r == (self@ == other@),
    {
        match (self, other) {
            (StateType::Str(a), StateType::Str(b)) => a.eq(b),
            (StateType::Bool(a), StateType::Bool(b)) => *a == *b,
            (StateType::Int(a), StateType::Int(b)) => *a == *b,
            _ => false,
        }
    }
}

impl vstd::std_specs::cmp::PartialEqSpecImpl for StateType {
    open spec fn obeys_eq_spec() -> bool {
        true
    }

    open spec fn eq_spec(&self, other: &StateType) -> bool {
        self@ == other@
    }
}

/// The sampled state of a digital input pin.
#[derive(Clone, Copy, Debug, PartialEq, Eq, Structural)]
pub struct InputPinHandler {
    pub current_state: bool,
    pub last_state: bool,
    /// Time of the last change of `current_state`, in milliseconds.
    pub last_change: u64,
}

/// The commanded state of a digital output pin.
#[derive(Clone, Copy, Debug, PartialEq, Eq, Structural)]
pub struct OutputPinHandler {
    pub current_state: bool,
    pub last_state: bool,
    /// Time of the last change of `current_state`, in milliseconds.
    pub last_change: u64,
}

impl InputPinHandler {
    pub open spec fn new_spec(now: u64) -> InputPinHandler {
        InputPinHandler { current_state: false, last_state: false, last_change: now }
    }

    /// The snapshot after a sample of `level` taken at `now`.
    pub open spec fn sampled(self, level: bool, now: u64) -> InputPinHandler {
        InputPinHandler {
            current_state: level,
            last_state: self.current_state,
            last_change: if level != self.current_state { now } else { self.last_change },
        }
    }

    /// A pin seen for the first time at `now`, reading low.
    pub fn new(now: u64) -> (r: InputPinHandler)
        ensures
            r == InputPinHandler::new_spec(now),
    {
        InputPinHandler { current_state: false, last_state: false, last_change: now }
    }

    /// Takes a new sample: the current state becomes the previous one, and a
    /// change of level stamps `now` as the time of the last change.
    pub fn record_sample(&mut self, level: bool, now: u64)
        ensures
            *final(self) == old(self).sampled(level, now),
    {
        self.last_state = self.current_state;
        self.current_state = level;
        if self.current_state != self.last_state {
            self.last_change = now;
        }
    }
}

impl OutputPinHandler {
    pub open spec fn new_spec(now: u64) -> OutputPinHandler {
        OutputPinHandler { current_state: false, last_state: false, last_change: now }
    }

    /// The snapshot after `state` is commanded at `now`: only a change is recorded.
    pub open spec fn commanded(self, state: bool, now: u64) -> OutputPinHandler {
        if state != self.current_state {
            OutputPinHandler { current_state: state, last_state: self.current_state, last_change: now }
        } else {
            self
        }
    }

    /// A pin opened at `now`, commanded off.
    pub fn new(now: u64) -> (r: OutputPinHandler)
        ensures
            r == OutputPinHandler::new_spec(now),
    {
        OutputPinHandler { current_state: false, last_state: false, last_change: now }
    }

    /// Commands a new state. Returns whether the state changed, and so whether
    /// the physical pin must be driven; only a change records a new snapshot.
    pub fn change_state(&mut self, new_state: bool, now: u64) -> (changed: bool)
        ensures
            changed == (new_state != old(self).current_state),
            *final(self) == old(self).commanded(new_state, now),
    {
        if self.current_state != new_state {
            self.last_state = self.current_state;
            self.current_state = new_state;
            self.last_change = now;
            true
        } else {
            false
        }
    }
}

} // verus!
