//! The processor: a configuration, and the runs that it starts.

use crate::config::{BackendView, Configuration, ConfigurationView};
use crate::execution::{Execution, Step};
use crate::fetch::{FetchOutcome, FetchView};
use vstd::prelude::*;

verus! {

/// Resolves documents under one configuration.
///
/// The processor fetches nothing itself. A run goes from fetch to fetch: each step
/// writes what can be written and says which fragment it needs next; whoever drives the
/// run fetches it and hands the outcome back.
pub struct Processor {
    configuration: Configuration,
}

impl View for Processor {
    type V = ConfigurationView;

    closed spec fn view(&self) -> ConfigurationView {
        self.configuration@
    }
}

impl Default for Processor {
    /// A processor with the default configuration.
    fn default() -> (processor: Self)
        ensures
            processor@.namespace == "esi"@,
            processor@.backends == Map::<Seq<char>, BackendView>::empty(),
            processor@.backends.dom().finite(),
    {
        Processor { configuration: Configuration::default() }
    }
}

impl Processor {
    /// A processor with the given configuration.
    pub fn new(configuration: Configuration) -> (processor: Self)
        ensures
            processor@ == configuration@,
    {
        Processor { configuration }
    }

    /// The configuration, which stays as it is for as long as the processor lives.
    pub fn configuration(&self) -> (configuration: &Configuration)
        ensures
            configuration@ == self@,
    {
        &self.configuration
    }

    /// Starts resolving a document: writes what precedes its first directive that needs
    /// a fetch, and halts there; or resolves it to the end, if there is none.
    pub fn execute_esi(&self, document: &[u8]) -> (step: Step)
        ensures
            step.follows(self@.namespace, document@, Seq::empty(), Seq::empty()),
    {
        Execution::begin(self.configuration.namespace(), document)
    }

    /// Carries a halted run on with the outcome of the fetch that it was waiting for:
    /// the fragment is resolved as a document of its own, in the place of its directive
    /// and under the same namespace, and the run goes on to the next fetch.
    pub fn execute_esi_fragment(&self, execution: Execution, outcome: FetchOutcome) -> (step:
        Step)
        ensures
            step.follows(
                execution.namespace(),
                execution.document(),
                execution.history().push(outcome@),
                execution.emitted(),
            ),
    {
        execution.resume(outcome)
    }
}

} // verus!
