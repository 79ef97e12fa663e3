//! The algorithm mode state: a single slot holding at most one selected
//! scheduling policy. Selecting a mode tells the caller which auxiliary
//! inputs the matching simulator will need; every simulator checks the slot
//! before running. The slot is a plain value: a host that serves concurrent
//! callers wraps it in its own lock.

use vstd::prelude::*;
use crate::model::{Inputs, SchedError, SchedulingAlgorithms};

verus! {

/// The externally owned, single-slot algorithm mode state.
pub struct AppState {
    pub algorithm: Option<SchedulingAlgorithms>,
}

impl Default for AppState {
    /// A fresh state has no mode selected.
    fn default() -> (r: Self)
        ensures
            r.algorithm is None,
    {
        AppState { algorithm: Option::None }
    }
}

/// The auxiliary input each mode requires.
pub open spec fn required_inputs(a: SchedulingAlgorithms) -> Inputs {
    match a {
        SchedulingAlgorithms::FCFS => Inputs::NoneRequired,
        SchedulingAlgorithms::SJF => Inputs::NoneRequired,
        SchedulingAlgorithms::RR => Inputs::Quantum,
        SchedulingAlgorithms::PRIORITY => Inputs::Priority,
    }
}

/// The mode a textual algorithm name selects, if any.
pub open spec fn mode_of_name(name: Seq<char>) -> Option<SchedulingAlgorithms> {
    if name == "fcfs"@ {
        Option::Some(SchedulingAlgorithms::FCFS)
    } else if name == "sjf"@ {
        Option::Some(SchedulingAlgorithms::SJF)
    } else if name == "rr"@ {
        Option::Some(SchedulingAlgorithms::RR)
    } else if name == "priority"@ {
        Option::Some(SchedulingAlgorithms::PRIORITY)
    } else {
        Option::None
    }
}

impl AppState {
    /// Maps a textual algorithm name to a mode, overwrites the stored mode,
    /// and returns which auxiliary inputs the caller must now supply. An
    /// unrecognized name fails with `UnknownAlgorithm` and leaves the slot
    /// unset.
    pub fn change_state(&mut self, algo: &String) -> (r: Result<Inputs, SchedError>)
        ensures
            final(self).algorithm == mode_of_name(algo@),
            match mode_of_name(algo@) {
                Option::Some(m) => r == Result::<Inputs, SchedError>::Ok(required_inputs(m)),
                Option::None => r == Result::<Inputs, SchedError>::Err(SchedError::UnknownAlgorithm),
            },
    {
        let fcfs: String = "fcfs".to_owned();
        let sjf: String = "sjf".to_owned();
        let rr: String = "rr".to_owned();
        let priority: String = "priority".to_owned();
        if *algo == fcfs {
            self.algorithm = Option::Some(SchedulingAlgorithms::FCFS);
            Result::Ok(Inputs::NoneRequired)
        } else if *algo == sjf {
            self.algorithm = Option::Some(SchedulingAlgorithms::SJF);
            Result::Ok(Inputs::NoneRequired)
        } else if *algo == rr {
            self.algorithm = Option::Some(SchedulingAlgorithms::RR);
            Result::Ok(Inputs::Quantum)
        } else if *algo == priority {
            self.algorithm = Option::Some(SchedulingAlgorithms::PRIORITY);
            Result::Ok(Inputs::Priority)
        } else {
            self.algorithm = Option::None;
            Result::Err(SchedError::UnknownAlgorithm)
        }
    }

    /// The auxiliary input the selected mode requires; `ModeNotSet` before
    /// any selection.
    pub fn get_inputs(&self) -> (r: Result<Inputs, SchedError>)
        ensures
            match self.algorithm {
                Option::Some(m) => r == Result::<Inputs, SchedError>::Ok(required_inputs(m)),
                Option::None => r == Result::<Inputs, SchedError>::Err(SchedError::ModeNotSet),
            },
    {
        match self.algorithm {
            Option::Some(m) => Result::Ok(match m {
                SchedulingAlgorithms::FCFS => Inputs::NoneRequired,
                SchedulingAlgorithms::SJF => Inputs::NoneRequired,
                SchedulingAlgorithms::RR => Inputs::Quantum,
                SchedulingAlgorithms::PRIORITY => Inputs::Priority,
            }),
            Option::None => Result::Err(SchedError::ModeNotSet),
        }
    }

    /// The selected mode; `ModeNotSet` before any selection.
    pub fn get_state(&self) -> (r: Result<SchedulingAlgorithms, SchedError>)
        ensures
            match self.algorithm {
                Option::Some(m) => r == Result::<SchedulingAlgorithms, SchedError>::Ok(m),
                Option::None => r == Result::<SchedulingAlgorithms, SchedError>::Err(SchedError::ModeNotSet),
            },
    {
        match self.algorithm {
            Option::Some(m) => Result::Ok(m),
            Option::None => Result::Err(SchedError::ModeNotSet),
        }
    }
}

} // verus!
