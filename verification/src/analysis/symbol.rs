//! The registry of boolean variables.

use vstd::prelude::*;
use crate::analysis::oracle::VARIABLE_LIMIT;

verus! {

/// Where a variable was allocated: a place in the source (a file and a line)
/// and an optional comment.
pub type SymbolOrigin = (&'static str, u32, Option<String>);

/// Hands out the numbers of boolean variables, one after the other, and
/// remembers where each was asked for.
pub struct SymbolFactory {
    ctr: usize,
    trace: Vec<SymbolOrigin>,
}

impl SymbolFactory {
    /// The number the next variable gets.
    pub closed spec fn count(&self) -> nat {
        self.ctr as nat
    }

    /// The origins of the variables handed out so far, oldest first.
    pub closed spec fn origins(&self) -> Seq<SymbolOrigin> {
        self.trace@
    }

    /// The number of the first variable this factory handed out or will.
    pub open spec fn first(&self) -> int {
        self.count() - self.origins().len()
    }

    /// The factory never hands out a number twice or beyond the limit.
    pub open spec fn wf(&self) -> bool {
        self.origins().len() <= self.count() <= VARIABLE_LIMIT
    }

    /// A factory whose first variable gets the number `ctr`, or the limit
    /// where `ctr` lies beyond it.
    pub fn new(ctr: usize) -> (r: Self)
        ensures
            r.wf(),
            r.count() == if ctr <= VARIABLE_LIMIT {
                ctr as nat
            } else {
                VARIABLE_LIMIT as nat
            },
            r.origins().len() == 0,
    {
        let start = if ctr <= VARIABLE_LIMIT as usize {
            ctr
        } else {
            VARIABLE_LIMIT as usize
        };
        Self { ctr: start, trace: Vec::new() }
    }

    /// Allocates the next variable and records its origin. `None`, with
    /// nothing changed, once the limit is reached.
    pub fn add_symbol(&mut self, file: &'static str, line: u32, comment: Option<String>) -> (r:
        Option<u32>)
        requires
            old(self).wf(),
        ensures
            final(self).wf(),
            old(self).count() < VARIABLE_LIMIT ==> r == Some(old(self).count() as u32)
                && final(self).count() == old(self).count() + 1 && final(self).origins()
                == old(self).origins().push((file, line, comment)),
            old(self).count() >= VARIABLE_LIMIT ==> r is None && final(self).count() == old(
                self,
            ).count() && final(self).origins() == old(self).origins(),
    {
        if self.ctr >= VARIABLE_LIMIT as usize {
            return None;
        }
        let id = self.ctr as u32;
        self.trace.push((file, line, comment));
        self.ctr = self.ctr + 1;
        Some(id)
    }
}

/// The origin of variable `sym`, if `factory` handed it out.
pub fn get_reason(factory: &SymbolFactory, sym: u32) -> (r: Option<&SymbolOrigin>)
    requires
        factory.wf(),
    ensures
        factory.first() <= sym < factory.count() ==> r == Some(
            &factory.origins()[sym - factory.first()],
        ),
        !(factory.first() <= sym < factory.count()) ==> r is None,
{
    let first = factory.ctr - factory.trace.len();
    let id = sym as usize;
    if first <= id && id < factory.ctr {
        Some(&factory.trace[id - first])
    } else {
        None
    }
}

/// The number of variables in use: the number the next one gets.
pub fn get_symbol_count(factory: &SymbolFactory) -> (r: usize)
    ensures
        r == factory.count(),
{
    factory.ctr
}

} // verus!
