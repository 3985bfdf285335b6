//! Taking in what the workers report, one message at a time.
//!
//! The driver of a run starts one worker per chunk and then hands every
//! message it receives to a `Collector`. The collector decides: it merges a
//! worker's aggregate, or it records why the run has failed, and it tells the
//! driver when there is nothing left to wait for.

use crate::aggregate::{AggregateMap, WorkerFailure};
use crate::reduce::{mergeable, GlobalResult};
use crate::stats::StatsView;
use crate::summary::{merge_maps, Summary};
use vstd::prelude::*;

verus! {

/// Why a run has no result.
#[derive(Clone, Copy, Debug, PartialEq, Eq, Structural)]
pub enum RunError {
    /// A worker stopped at a malformed row.
    WorkerFailure(WorkerFailure),
    /// A worker's result did not arrive, or could not be taken in.
    CollectionFailure,
}

/// The state of a run while its workers report.
pub struct Collector<'a> {
    expected: usize,
    received: usize,
    merged: GlobalResult<'a>,
    failure: Option<RunError>,
}

impl<'a> Collector<'a> {
    /// The number of workers that were started.
    pub closed spec fn expected(&self) -> nat {
        self.expected as nat
    }

    /// The number of aggregates merged so far.
    pub closed spec fn received(&self) -> nat {
        self.received as nat
    }

    /// The merge of the aggregates taken in so far.
    pub closed spec fn summary(&self) -> Summary {
        self.merged.summary()
    }

    /// Why the run has failed, if it has.
    pub closed spec fn failure(&self) -> Option<RunError> {
        self.failure
    }

    /// There is nothing left to wait for: the run has failed, or every
    /// worker's aggregate has been merged.
    pub open spec fn finished(&self) -> bool {
        self.failure() is Some || self.received() >= self.expected()
    }

    /// A collector that waits for `expected` workers.
    pub fn new(expected: usize) -> (c: Collector<'a>)
        ensures
            c.expected() == expected,
            c.received() == 0,
            c.summary() == Map::<Seq<u8>, StatsView>::empty(),
            c.failure() is None,
    {
        Collector { expected, received: 0, merged: GlobalResult::new(), failure: None }
    }

    /// Tells whether there is nothing left to wait for.
    pub fn is_done(&self) -> (done: bool)
        ensures
            done == self.finished(),
    {
        self.failure.is_some() || self.received >= self.expected
    }

    /// Takes in the message of one worker.
    ///
    /// While the run is under way, an aggregate is merged into what has been
    /// collected and counted, and a worker's failure becomes the failure of
    /// the run. An aggregate whose counts cannot be added to the collected
    /// ones fails the run too. Once the run is finished a message changes
    /// nothing.
    pub fn accept(&mut self, outcome: Result<AggregateMap<'a>, WorkerFailure>)
        ensures
            final(self).expected() == old(self).expected(),
            old(self).finished() ==> {
                &&& final(self).received() == old(self).received()
                &&& final(self).summary() == old(self).summary()
                &&& final(self).failure() == old(self).failure()
            },
            !old(self).finished() ==> match outcome {
                Ok(map) => if mergeable(old(self).summary(), map@) {
                    &&& final(self).received() == old(self).received() + 1
                    &&& final(self).summary() == merge_maps(old(self).summary(), map@)
                    &&& final(self).failure() is None
                } else {
                    &&& final(self).received() == old(self).received()
                    &&& final(self).summary() == old(self).summary()
                    &&& final(self).failure() == Some(RunError::CollectionFailure)
                },
                Err(failure) => {
                    &&& final(self).received() == old(self).received()
                    &&& final(self).summary() == old(self).summary()
                    &&& final(self).failure() == Some(RunError::WorkerFailure(failure))
                },
            },
    {
        if self.is_done() {
            return ;
        }
        match outcome {
            Ok(map) => {
                if self.merged.can_absorb(&map) {
                    self.merged.absorb(&map);
                    self.received = self.received + 1;
                } else {
                    self.failure = Some(RunError::CollectionFailure);
                }
            },
            Err(failure) => {
                self.failure = Some(RunError::WorkerFailure(failure));
            },
        }
    }

    /// Takes note that no further message can come.
    ///
    /// While the run is under way this fails it: a worker that was waited
    /// for will never report. Once the run is finished it changes nothing.
    pub fn disconnected(&mut self)
        ensures
            final(self).expected() == old(self).expected(),
            final(self).received() == old(self).received(),
            final(self).summary() == old(self).summary(),
            final(self).failure() == if old(self).finished() {
                old(self).failure()
            } else {
                Some(RunError::CollectionFailure)
            },
    {
        if !self.is_done() {
            self.failure = Some(RunError::CollectionFailure);
        }
    }

    /// Ends the run: the merged result if every worker's aggregate was taken
    /// in and nothing failed, else the failure. A run that is ended while
    /// workers are still waited for has failed to collect.
    pub fn finish(self) -> (r: Result<GlobalResult<'a>, RunError>)
        ensures
            match r {
                Ok(result) => {
                    &&& self.failure() is None
                    &&& self.received() >= self.expected()
                    &&& result.summary() == self.summary()
                },
                Err(error) => error == match self.failure() {
                    Some(failure) => failure,
                    None => RunError::CollectionFailure,
                } && !(self.failure() is None && self.received() >= self.expected()),
            },
    {
        match self.failure {
            Some(failure) => Err(failure),
            None => {
                if self.received >= self.expected {
                    Ok(self.merged)
                } else {
                    Err(RunError::CollectionFailure)
                }
            },
        }
    }
}

} // verus!
