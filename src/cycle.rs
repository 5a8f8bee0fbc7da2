use vstd::prelude::*;
use crate::report::{
    has_availability, message_of, section, PollResult, StoreSlots, Timeslot,
};

verus! {

/// Why the query of one store gave no usable answer.
#[derive(Debug, PartialEq, Eq, Structural, Clone, Copy)]
pub enum SourceError {
    /// The request could not be sent or its answer not received.
    Transport,
    /// The source answered with a status outside 2xx.
    Status(u16),
    /// The answer's body is not a list of timeslots.
    Decode,
}

/// What one store's query brought: its timeslots, or nothing when it failed.
pub open spec fn outcome_slots(o: Option<Seq<Timeslot>>) -> Seq<Timeslot> {
    match o {
        Some(s) => s,
        None => Seq::empty(),
    }
}

/// The outcome of a query as a model: the timeslots, or `None` on failure.
pub open spec fn outcome_view(o: Result<Vec<Timeslot>, SourceError>) -> Option<Seq<Timeslot>> {
    match o {
        Ok(v) => Some(v@),
        Err(_) => None,
    }
}

/// No store code occurs twice.
pub open spec fn stores_distinct(stores: Seq<String>) -> bool {
    forall|i: int, j: int|
        0 <= i < stores.len() && 0 <= j < stores.len() && i != j ==> #[trigger] stores[i]@
            != #[trigger] stores[j]@
}

/// The stores whose query failed, in order of querying.
pub open spec fn failed_of(stores: Seq<String>, outcomes: Seq<Option<Seq<Timeslot>>>) -> Seq<String>
    decreases outcomes.len(),
{
    if outcomes.len() == 0 {
        Seq::empty()
    } else {
        let prev = failed_of(stores, outcomes.drop_last());
        if outcomes.last() is None {
            prev.push(stores[outcomes.len() - 1])
        } else {
            prev
        }
    }
}

/// `es` records, store by store and in order, the outcomes of querying
/// `stores`: a failed query stands as a store with no timeslot.
pub open spec fn records_match(
    es: Seq<StoreSlots>,
    stores: Seq<String>,
    outcomes: Seq<Option<Seq<Timeslot>>>,
) -> bool {
    &&& es.len() == stores.len()
    &&& es.len() == outcomes.len()
    &&& forall|i: int|
        #![trigger es[i]]
        0 <= i < es.len() ==> es[i].code@ == stores[i]@ && es[i].slots@ == outcome_slots(
            outcomes[i],
        )
}

/// One poll cycle: the configured stores are queried in order, each outcome
/// is recorded, and only a cycle in which every store has been queried can be
/// rendered.
pub struct Cycle {
    stores: Vec<String>,
    result: PollResult,
    failed: Vec<String>,
    outcomes: Ghost<Seq<Option<Seq<Timeslot>>>>,
}

impl Cycle {
    /// The stores this cycle queries, in order.
    pub closed spec fn stores(&self) -> Seq<String> {
        self.stores@
    }

    /// The outcomes recorded so far, one per queried store.
    pub closed spec fn outcomes(&self) -> Seq<Option<Seq<Timeslot>>> {
        self.outcomes@
    }

    /// The entries recorded so far.
    pub closed spec fn records(&self) -> Seq<StoreSlots> {
        self.result@
    }

    /// The number of stores queried so far.
    pub open spec fn queried(&self) -> nat {
        self.outcomes().len()
    }

    /// Every store has been queried.
    pub open spec fn complete(&self) -> bool {
        self.queried() == self.stores().len()
    }

    pub closed spec fn wf(&self) -> bool {
        &&& stores_distinct(self.stores@)
        &&& self.outcomes@.len() <= self.stores@.len()
        &&& self.result.wf()
        &&& self.failed@ == failed_of(self.stores@, self.outcomes@)
        &&& records_match(
            self.result@,
            self.stores@.subrange(0, self.outcomes@.len() as int),
            self.outcomes@,
        )
    }

    /// Starts a cycle over `stores`, with nothing recorded: no entry of an
    /// earlier cycle is carried over.
    pub fn start(stores: Vec<String>) -> (r: Cycle)
        requires
            stores_distinct(stores@),
        ensures
            r.wf(),
            r.stores() == stores@,
            r.outcomes() == Seq::<Option<Seq<Timeslot>>>::empty(),
            r.records() == Seq::<StoreSlots>::empty(),
    {
        let r = Cycle {
            stores,
            result: PollResult::new(),
            failed: Vec::new(),
            outcomes: Ghost(Seq::empty()),
        };
        assert(r.stores@.subrange(0, 0) =~= Seq::<String>::empty());
        r
    }

    /// The store to query next, or `None` once every store has been queried.
    pub fn next_store(&self) -> (r: Option<&String>)
        requires
            self.wf(),
        ensures
            self.complete() <==> r is None,
            r matches Some(s) ==> *s == self.stores()[self.queried() as int],
    {
        let n = self.result.len();
        if n < self.stores.len() {
            Some(&self.stores[n])
        } else {
            None
        }
    }

    /// Every store has been queried.
    pub fn is_complete(&self) -> (r: bool)
        requires
            self.wf(),
        ensures
            r == self.complete(),
    {
        self.result.len() == self.stores.len()
    }

    /// Records the outcome of querying the next store. A failed query is
    /// recorded as a store with no timeslot, and the store is noted as failed;
    /// the cycle goes on with the other stores.
    pub fn record(&mut self, outcome: Result<Vec<Timeslot>, SourceError>)
        requires
            old(self).wf(),
            !old(self).complete(),
        ensures
            final(self).wf(),
            final(self).stores() == old(self).stores(),
            final(self).outcomes() == old(self).outcomes().push(outcome_view(outcome)),
    {
        let n = self.result.len();
        let code = self.stores[n].clone();
        let ghost prev = self.result@;
        let ghost stores = self.stores@;
        let ghost o = outcome_view(outcome);
        proof {
            assert forall|i: int| 0 <= i < prev.len() implies #[trigger] prev[i].code@ != code@ by {
                assert(prev[i].code@ == stores.subrange(0, n as int)[i]@);
            }
        }
        match outcome {
            Ok(v) => {
                self.result.insert(code, v);
            },
            Err(_) => {
                self.failed.push(code.clone());
                self.result.insert(code, Vec::new());
            },
        }
        self.outcomes = Ghost(self.outcomes@.push(o));
        proof {
            assert(self.outcomes@.drop_last() =~= old(self).outcomes@);
            let subs = self.stores@.subrange(0, n + 1);
            assert forall|i: int| 0 <= i < self.result@.len() implies #[trigger] self.result@[i].code@
                == subs[i]@ && self.result@[i].slots@ == outcome_slots(self.outcomes@[i]) by {
                if i < n {
                    assert(subs[i] == stores.subrange(0, n as int)[i]);
                }
            }
        }
    }

    /// The stores whose query failed in this cycle, in order.
    pub fn failed(&self) -> (r: &Vec<String>)
        requires
            self.wf(),
        ensures
            r@ == failed_of(self.stores(), self.outcomes()),
    {
        &self.failed
    }

    /// Renders a completed cycle: the text over every store, and whether any
    /// store has a free timeslot.
    pub fn finish(&self) -> (r: (String, bool))
        requires
            self.wf(),
            self.complete(),
        ensures
            records_match(self.records(), self.stores(), self.outcomes()),
            r.0@ == message_of(self.records()),
            r.1 == has_availability(self.records()),
    {
        assert(self.stores@.subrange(0, self.stores@.len() as int) =~= self.stores@);
        self.result.format()
    }
}

/// What a cycle announces depends on that cycle's own outcomes alone: two
/// record sequences of the same stores and outcomes, such as those of a later
/// cycle and of a fresh one, give the same text and the same flag, whatever
/// an earlier cycle saw.
pub proof fn lemma_cycle_isolation(
    a: Seq<StoreSlots>,
    b: Seq<StoreSlots>,
    stores: Seq<String>,
    outcomes: Seq<Option<Seq<Timeslot>>>,
)
    requires
        records_match(a, stores, outcomes),
        records_match(b, stores, outcomes),
    ensures
        message_of(a) == message_of(b),
        has_availability(a) == has_availability(b),
    decreases a.len(),
{
    if a.len() > 0 {
        let k = a.len() - 1;
        lemma_cycle_isolation(a.drop_last(), b.drop_last(), stores.drop_last(), outcomes.drop_last());
        assert(a[k].code@ == b[k].code@ && a[k].slots@ == b[k].slots@);
        assert(a.last() == a[k] && b.last() == b[k]);
        assert(section(a.last()) == section(b.last()));
    }
    if has_availability(a) {
        let i = choose|i: int| 0 <= i < a.len() && #[trigger] a[i].slots@.len() > 0;
        assert(a[i].slots@ == b[i].slots@);
    }
    if has_availability(b) {
        let i = choose|i: int| 0 <= i < b.len() && #[trigger] b[i].slots@.len() > 0;
        assert(a[i].slots@ == b[i].slots@);
    }
}

} // verus!
