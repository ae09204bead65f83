use vstd::prelude::*;

use core::convert::Infallible;
use core::ops::ControlFlow;

verus! {

/// A trait for managing the execution of a
/// solver. It provides a `check` method that
/// returns a `ControlFlow` indicating whether
/// the solver should continue or break.
pub trait SolverManager {
    type Break;

    /// Does this manager let the solver run to completion, never breaking?
    /// Not promised unless a manager says so.
    open spec fn patient(&self) -> bool {
        false
    }

    /// Called once per node the solver visits; a `Break` stops the solver.
    /// A patient manager always continues and stays patient.
    fn check(&mut self) -> (r: ControlFlow<Self::Break, ()>)
        ensures
            old(self).patient() ==> r is Continue && final(self).patient(),
    ;

    /// Number of checks counted so far, if the manager counts them; a
    /// manager that does not count reports 0.
    fn count(&self) -> (n: usize)
        default_ensures
            n == 0,
    {
        0
    }
}

/// Allows the solver to continue indefinitely.
#[derive(Debug, Clone)]
pub struct LaissezFaire {}

impl SolverManager for LaissezFaire {
    type Break = Infallible;

    open spec fn patient(&self) -> bool {
        true
    }

    fn check(&mut self) -> (r: ControlFlow<Infallible, ()>)
        ensures
            r is Continue,
    {
        ControlFlow::Continue(())
    }
}

/// Logs the number of iterations of the solver.
#[derive(Debug, Clone)]
pub struct Logger {
    count: usize,
}

impl Logger {
    /// A logger that has counted nothing yet.
    pub fn new() -> (l: Self)
        ensures
            l.counted() == 0,
    {
        Logger { count: 0 }
    }

    /// Number of checks counted so far.
    pub closed spec fn counted(&self) -> nat {
        self.count as nat
    }
}

impl SolverManager for Logger {
    type Break = Infallible;

    open spec fn patient(&self) -> bool {
        true
    }

    fn check(&mut self) -> (r: ControlFlow<Infallible, ()>)
        ensures
            r is Continue,
            final(self).counted() == if old(self).counted() < usize::MAX {
                old(self).counted() + 1
            } else {
                old(self).counted()
            },
    {
        if self.count < usize::MAX {
            self.count = self.count + 1;
        }
        ControlFlow::Continue(())
    }

    fn count(&self) -> (n: usize)
        ensures
            n == self.counted(),
    {
        self.count
    }
}

} // verus!
