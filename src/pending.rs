//! Correlation of in-flight requests with their responses: the pending-request
//! table, the outstanding-request counter and the producer's completion flag.

use vstd::prelude::*;
use crate::generator::SymbolLocation;
use dashmap::DashMap;

verus! {

#[verifier::external_type_specification]
#[verifier::external_body]
#[verifier::reject_recursive_types(K)]
#[verifier::reject_recursive_types(V)]
#[verifier::reject_recursive_types(S)]
pub struct ExDashMap<K, V, S>(DashMap<K, V, S>);

/// What is needed to interpret a response once it arrives.
#[derive(Debug)]
pub enum PendingContext {
    /// A symbol-outline query for the file at this path.
    Outline(String),
    /// An outgoing-call query for the symbol at this location.
    Calls(SymbolLocation),
    /// An implementation query for the interface at this location.
    Implementations(SymbolLocation),
}

/// The entries of a pending-request table.
pub uninterp spec fn table_entries(m: DashMap<u64, PendingContext>) -> Map<u64, PendingContext>;

/// Relies on `DashMap::new`: a new map holds no entry.
#[verifier::external_body]
fn table_new() -> (r: DashMap<u64, PendingContext>)
    ensures
        table_entries(r).dom() == Set::<u64>::empty(),
{
    DashMap::new()
}

/// Relies on `DashMap::insert`: the key maps to the value afterwards, and the
/// value it mapped to before, if any, is returned.
#[verifier::external_body]
fn table_insert(m: &mut DashMap<u64, PendingContext>, id: u64, ctx: PendingContext) -> (r: Option<PendingContext>)
    ensures
        table_entries(*final(m)) == table_entries(*old(m)).insert(id, ctx),
        table_entries(*old(m)).contains_key(id) ==> r == Some(table_entries(*old(m))[id]),
        !table_entries(*old(m)).contains_key(id) ==> r is None,
{
    m.insert(id, ctx)
}

/// Relies on `DashMap::remove`: the entry of the key, if any, leaves the map
/// and its value is returned.
#[verifier::external_body]
fn table_remove(m: &mut DashMap<u64, PendingContext>, id: u64) -> (r: Option<PendingContext>)
    ensures
        table_entries(*final(m)) == table_entries(*old(m)).remove(id),
        table_entries(*old(m)).contains_key(id) ==> r == Some(table_entries(*old(m))[id]),
        !table_entries(*old(m)).contains_key(id) ==> r is None,
{
    m.remove(&id).map(|e| e.1)
}

/// Relies on `DashMap::contains_key`: whether the key has an entry.
#[verifier::external_body]
fn table_contains(m: &DashMap<u64, PendingContext>, id: u64) -> (r: bool)
    ensures
        r == table_entries(*m).contains_key(id),
{
    m.contains_key(&id)
}

/// Relies on `DashMap::is_empty`: whether the map holds no entry.
#[verifier::external_body]
fn table_is_empty(m: &DashMap<u64, PendingContext>) -> (r: bool)
    ensures
        r == (table_entries(*m).dom() == Set::<u64>::empty()),
{
    m.is_empty()
}

/// The state of one phase of queries: the pending table, the number of
/// requests issued and not yet answered, and whether the producer is done.
pub struct PhaseState {
    pub pending: Map<u64, PendingContext>,
    pub outstanding: nat,
    pub finished: bool,
}

/// A request with this id and context was issued.
pub open spec fn issued(s: PhaseState, id: u64, ctx: PendingContext) -> PhaseState {
    PhaseState { pending: s.pending.insert(id, ctx), outstanding: s.outstanding + 1, finished: s.finished }
}

/// The response with this id was consumed: its entry leaves the table and the
/// counter drops; a response that matches no entry changes nothing.
pub open spec fn consumed(s: PhaseState, id: u64) -> PhaseState {
    if s.pending.contains_key(id) {
        PhaseState { pending: s.pending.remove(id), outstanding: (s.outstanding - 1) as nat, finished: s.finished }
    } else {
        s
    }
}

/// The producer signalled that it will issue no more requests.
pub open spec fn finished(s: PhaseState) -> PhaseState {
    PhaseState { pending: s.pending, outstanding: s.outstanding, finished: true }
}

/// The consumer may stop: no request will be issued any more, and every one
/// issued has been answered.
pub open spec fn complete(s: PhaseState) -> bool {
    s.finished && s.outstanding == 0
}

pub open spec fn phase_start() -> PhaseState {
    PhaseState { pending: Map::empty(), outstanding: 0, finished: false }
}

/// Issuing the requests `ids` with contexts `ctxs`, one after the other.
pub open spec fn issue_all(s: PhaseState, ids: Seq<u64>, ctxs: Seq<PendingContext>) -> PhaseState
    decreases ids.len(),
{
    if ids.len() == 0 || ctxs.len() == 0 {
        s
    } else {
        issued(issue_all(s, ids.drop_last(), ctxs.drop_last()), ids.last(), ctxs.last())
    }
}

/// Consuming the responses with ids `order`, one after the other.
pub open spec fn consume_all(s: PhaseState, order: Seq<u64>) -> PhaseState
    decreases order.len(),
{
    if order.len() == 0 {
        s
    } else {
        consumed(consume_all(s, order.drop_last()), order.last())
    }
}

/// The counter counts the pending entries.
pub open spec fn counted(s: PhaseState) -> bool {
    s.pending.dom().finite() && s.outstanding == s.pending.dom().len()
}

proof fn lemma_issue_all(ids: Seq<u64>, ctxs: Seq<PendingContext>)
    requires
        ids.len() == ctxs.len(),
        forall|a: int, b: int| 0 <= a < b < ids.len() ==> ids[a] < ids[b],
    ensures
        counted(issue_all(phase_start(), ids, ctxs)),
        issue_all(phase_start(), ids, ctxs).pending.dom() == ids.to_set(),
    decreases ids.len(),
{
    if ids.len() == 0 {
        assert(phase_start().pending.dom() =~= ids.to_set());
    } else {
        let p = ids.drop_last();
        lemma_issue_all(p, ctxs.drop_last());
        let prev = issue_all(phase_start(), p, ctxs.drop_last());
        assert(!p.contains(ids.last())) by {
            if p.contains(ids.last()) {
                let k = choose|k: int| 0 <= k < p.len() && p[k] == ids.last();
                assert(ids[k] < ids[ids.len() - 1]);
            }
        }
        assert(!prev.pending.dom().contains(ids.last()));
        assert(issue_all(phase_start(), ids, ctxs).pending.dom() =~= ids.to_set()) by {
            assert forall|x: u64| ids.to_set().contains(x) <==> (p.to_set().contains(x) || x == ids.last()) by {
                if ids.contains(x) && x != ids.last() {
                    let k = choose|k: int| 0 <= k < ids.len() && ids[k] == x;
                    assert(p[k] == x);
                }
                if p.contains(x) {
                    let k = choose|k: int| 0 <= k < p.len() && p[k] == x;
                    assert(ids[k] == x);
                }
                assert(ids[ids.len() - 1] == ids.last());
            }
        }
    }
}

proof fn lemma_consume_all(s: PhaseState, order: Seq<u64>)
    requires
        counted(s),
    ensures
        counted(consume_all(s, order)),
        consume_all(s, order).pending.dom() == s.pending.dom().difference(order.to_set()),
        consume_all(s, order).finished == s.finished,
    decreases order.len(),
{
    if order.len() == 0 {
        assert(s.pending.dom().difference(order.to_set()) =~= s.pending.dom());
    } else {
        let p = order.drop_last();
        lemma_consume_all(s, p);
        let prev = consume_all(s, p);
        assert(consume_all(s, order).pending.dom() =~= s.pending.dom().difference(order.to_set())) by {
            assert forall|x: u64| order.to_set().contains(x) <==> (p.to_set().contains(x) || x == order.last()) by {
                if order.contains(x) && x != order.last() {
                    let k = choose|k: int| 0 <= k < order.len() && order[k] == x;
                    assert(p[k] == x);
                }
                if p.contains(x) {
                    let k = choose|k: int| 0 <= k < p.len() && p[k] == x;
                    assert(order[k] == x);
                }
                assert(order[order.len() - 1] == order.last());
            }
        }
    }
}

/// Issue `N` requests with distinct ascending ids into a new phase, then consume
/// responses that answer each of them (in any order, along with any others): the
/// pending table ends empty and the outstanding counter at zero.
pub proof fn lemma_correlation_integrity(ids: Seq<u64>, ctxs: Seq<PendingContext>, order: Seq<u64>)
    requires
        ids.len() == ctxs.len(),
        forall|a: int, b: int| 0 <= a < b < ids.len() ==> ids[a] < ids[b],
        forall|k: int| 0 <= k < ids.len() ==> order.contains(#[trigger] ids[k]),
    ensures
        consume_all(issue_all(phase_start(), ids, ctxs), order).pending.dom() == Set::<u64>::empty(),
        consume_all(issue_all(phase_start(), ids, ctxs), order).outstanding == 0,
{
    lemma_issue_all(ids, ctxs);
    let s = issue_all(phase_start(), ids, ctxs);
    lemma_consume_all(s, order);
    let e = consume_all(s, order);
    assert(e.pending.dom() =~= Set::<u64>::empty()) by {
        assert forall|x: u64| !e.pending.dom().contains(x) by {
            if ids.to_set().contains(x) {
                let k = choose|k: int| 0 <= k < ids.len() && ids[k] == x;
                assert(order.contains(ids[k]));
            }
        }
    }
}

/// A phase in which the producer issues no request completes as soon as the
/// producer signals that it is done, whatever responses arrive meanwhile.
pub proof fn lemma_empty_phase_completes(order: Seq<u64>)
    ensures
        complete(consume_all(finished(phase_start()), order)),
{
    let s = finished(phase_start());
    assert(s.pending.dom() =~= Set::<u64>::empty());
    lemma_consume_all(s, order);
    let e = consume_all(s, order);
    assert(e.pending.dom() =~= Set::<u64>::empty());
}

/// One phase of the orchestration: requests issued by the producer, responses
/// folded in by the consumer.
pub struct Phase {
    pending: DashMap<u64, PendingContext>,
    outstanding: usize,
    finished: bool,
}

impl View for Phase {
    type V = PhaseState;

    closed spec fn view(&self) -> PhaseState {
        PhaseState { pending: table_entries(self.pending), outstanding: self.outstanding as nat, finished: self.finished }
    }
}

impl Phase {
    /// Every pending entry is counted once.
    pub closed spec fn wf(&self) -> bool {
        self@.pending.dom().finite() && self.outstanding as nat == self@.pending.dom().len()
    }

    pub fn new() -> (r: Phase)
        ensures
            r.wf(),
            r@ == phase_start(),
    {
        let r = Phase { pending: table_new(), outstanding: 0, finished: false };
        assert(r@.pending =~= Map::<u64, PendingContext>::empty());
        r
    }

    /// Records an issued request. Refused, with the context handed back and
    /// nothing changed, where a request with that id is still pending or the
    /// counter is full.
    pub fn issue(&mut self, id: u64, ctx: PendingContext) -> (r: Result<(), PendingContext>)
        requires
            old(self).wf(),
        ensures
            final(self).wf(),
            r is Ok <==> (!old(self)@.pending.contains_key(id) && old(self)@.outstanding < usize::MAX),
            r is Ok ==> final(self)@ == issued(old(self)@, id, ctx),
            r matches Err(c) ==> c == ctx && final(self)@ == old(self)@,
    {
        if table_contains(&self.pending, id) || self.outstanding == usize::MAX {
            return Err(ctx);
        }
        table_insert(&mut self.pending, id, ctx);
        self.outstanding = self.outstanding + 1;
        proof {
            assert(self@.pending.dom() =~= old(self)@.pending.dom().insert(id));
        }
        Ok(())
    }

    /// Folds in a response: the context of the request it answers leaves the
    /// table and is returned; a response that answers no pending request is
    /// ignored.
    pub fn consume(&mut self, id: u64) -> (r: Option<PendingContext>)
        requires
            old(self).wf(),
        ensures
            final(self).wf(),
            final(self)@ == consumed(old(self)@, id),
            old(self)@.pending.contains_key(id) ==> r == Some(old(self)@.pending[id]),
            !old(self)@.pending.contains_key(id) ==> r is None,
    {
        let r = table_remove(&mut self.pending, id);
        match r {
            Some(_) => {
                proof {
                    assert(self@.pending.dom() =~= old(self)@.pending.dom().remove(id));
                }
                self.outstanding = self.outstanding - 1;
            },
            None => {
                assert(self@.pending =~= old(self)@.pending);
            },
        }
        r
    }

    /// The producer will issue no more requests in this phase.
    pub fn finish(&mut self)
        requires
            old(self).wf(),
        ensures
            final(self).wf(),
            final(self)@ == finished(old(self)@),
    {
        self.finished = true;
    }

    /// Whether the consumer may stop waiting for responses.
    pub fn is_complete(&self) -> (r: bool)
        ensures
            r == complete(self@),
    {
        self.finished && self.outstanding == 0
    }

    /// Whether no request of this phase is still waiting for its response.
    pub fn is_settled(&self) -> (r: bool)
        requires
            self.wf(),
        ensures
            r == (self@.pending.dom() == Set::<u64>::empty()),
    {
        table_is_empty(&self.pending)
    }
}

} // verus!
