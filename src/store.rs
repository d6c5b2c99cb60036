use crate::events::{ExecutionEvent, ExecutionStatus, JoinSetResponseEvent, ResponseWithCursor};
use crate::ids::ExecutionId;
use crate::pagination::{
    cursors_after, next_cursors, page_finishes, page_request, is_finishing_page, request_for,
    Cursors, FetchState, PageRequest,
};
use hashbrown::HashMap;
use vstd::prelude::*;
use vstd::string::*;

verus! {

/// Positions of execution logs, keyed by execution id, in a hashbrown map.
#[verifier::external_body]
pub struct IdIndex {
    map: HashMap<String, usize>,
}

/// The entries of an index from execution ids to positions.
pub uninterp spec fn index_entries(m: IdIndex) -> Map<Seq<char>, usize>;

/// Relies on `hashbrown::HashMap::new`: a new map holds no entry.
#[verifier::external_body]
fn index_new() -> (m: IdIndex)
    ensures
        index_entries(m).dom() == Set::<Seq<char>>::empty(),
{
    IdIndex { map: HashMap::new() }
}

/// Relies on `hashbrown::HashMap::get`: the value stored under an equal key, if any.
#[verifier::external_body]
fn index_get(m: &IdIndex, k: &str) -> (r: Option<usize>)
    ensures
        r == (if index_entries(*m).contains_key(k@) {
            Some(index_entries(*m)[k@])
        } else {
            None
        }),
{
    m.map.get(k).copied()
}

/// Relies on `hashbrown::HashMap::insert`: the key maps to the value afterwards,
/// and every other key keeps its value.
#[verifier::external_body]
fn index_insert(m: &mut IdIndex, k: String, v: usize)
    ensures
        index_entries(*final(m)) == index_entries(*old(m)).insert(k@, v),
{
    m.map.insert(k, v);
}

} // verus!

verus! {

/// The loaded part of one execution's log, and where its fetching stands.
#[derive(Debug)]
pub struct ExecutionLog {
    pub execution_id: ExecutionId,
    pub fetch_state: FetchState,
    pub events: Vec<ExecutionEvent>,
    pub responses: Vec<JoinSetResponseEvent>,
    /// The status that came with the latest page, if a page came.
    pub status: Option<ExecutionStatus>,
}

/// The responses of a page, without their cursors.
pub open spec fn page_responses(rs: Seq<ResponseWithCursor>) -> Seq<JoinSetResponseEvent> {
    rs.map_values(|r: ResponseWithCursor| r.event)
}

/// A log after its page request was sent: a requested fetch becomes pending.
pub open spec fn dispatched(l: ExecutionLog) -> ExecutionLog {
    match l.fetch_state {
        FetchState::Requested(_) => ExecutionLog { fetch_state: FetchState::Pending, ..l },
        _ => l,
    }
}

/// The page requests due for a sequence of logs: one for each requested log,
/// in order, with its id and cursors.
pub open spec fn due_requests(logs: Seq<ExecutionLog>) -> Seq<(Seq<char>, Cursors)>
    decreases logs.len(),
{
    if logs.len() == 0 {
        seq![]
    } else {
        match logs.last().fetch_state {
            FetchState::Requested(c) => due_requests(logs.drop_last()).push(
                (logs.last().execution_id@, c),
            ),
            _ => due_requests(logs.drop_last()),
        }
    }
}

/// Whether `r` is the request due for an execution in state `st`.
pub open spec fn request_matches_state(st: Option<FetchState>, id: Seq<char>, r: PageRequest) -> bool {
    match st {
        Some(FetchState::Requested(c)) => request_for(id, c, r),
        _ => false,
    }
}

proof fn lemma_due_sound(logs: Seq<ExecutionLog>)
    ensures
        forall|j: int|
            0 <= j < due_requests(logs).len() ==> exists|i: int|
                0 <= i < logs.len() && (#[trigger] logs[i]).execution_id@ == (
                #[trigger] due_requests(logs)[j]).0 && logs[i].fetch_state == FetchState::Requested(
                    due_requests(logs)[j].1,
                ),
    decreases logs.len(),
{
    if logs.len() > 0 {
        let d = logs.drop_last();
        lemma_due_sound(d);
        assert forall|j: int| 0 <= j < due_requests(logs).len() implies exists|i: int|
            0 <= i < logs.len() && (#[trigger] logs[i]).execution_id@ == (
            #[trigger] due_requests(logs)[j]).0 && logs[i].fetch_state == FetchState::Requested(
                due_requests(logs)[j].1,
            ) by {
            if j < due_requests(d).len() {
                assert(due_requests(logs)[j] == due_requests(d)[j]);
                let i = choose|i: int|
                    0 <= i < d.len() && (#[trigger] d[i]).execution_id@ == (
                    #[trigger] due_requests(d)[j]).0 && d[i].fetch_state == FetchState::Requested(
                        due_requests(d)[j].1,
                    );
                assert(logs[i] == d[i]);
            } else {
                assert(logs[logs.len() - 1] == logs.last());
            }
        }
    }
}

proof fn lemma_due_complete(logs: Seq<ExecutionLog>, i: int)
    requires
        0 <= i < logs.len(),
        logs[i].fetch_state is Requested,
    ensures
        exists|j: int|
            0 <= j < due_requests(logs).len() && #[trigger] due_requests(logs)[j] == (
                logs[i].execution_id@,
                logs[i].fetch_state->Requested_0,
            ),
    decreases logs.len(),
{
    let d = logs.drop_last();
    if i < logs.len() - 1 {
        assert(d[i] == logs[i]);
        lemma_due_complete(d, i);
        let j = choose|j: int|
            0 <= j < due_requests(d).len() && #[trigger] due_requests(d)[j] == (
                d[i].execution_id@,
                d[i].fetch_state->Requested_0,
            );
        assert(due_requests(logs)[j] == due_requests(d)[j]);
    } else {
        assert(logs.last() == logs[i]);
        assert(due_requests(logs).last() == (logs[i].execution_id@, logs[i].fetch_state->Requested_0));
    }
}

proof fn lemma_due_unique(logs: Seq<ExecutionLog>)
    requires
        forall|a: int, b: int|
            0 <= a < logs.len() && 0 <= b < logs.len() && a != b ==> (#[trigger] logs[a]).execution_id@
                != (#[trigger] logs[b]).execution_id@,
    ensures
        forall|a: int, b: int|
            0 <= a < due_requests(logs).len() && 0 <= b < due_requests(logs).len() && (
            #[trigger] due_requests(logs)[a]).0 == (#[trigger] due_requests(logs)[b]).0 ==> a == b,
    decreases logs.len(),
{
    if logs.len() > 0 {
        let d = logs.drop_last();
        assert forall|a: int, b: int|
            0 <= a < d.len() && 0 <= b < d.len() && a != b implies (#[trigger] d[a]).execution_id@
                != (#[trigger] d[b]).execution_id@ by {
            assert(d[a] == logs[a] && d[b] == logs[b]);
        }
        lemma_due_unique(d);
        lemma_due_sound(d);
        let n = due_requests(d).len();
        if due_requests(logs).len() > n {
            assert forall|a: int| 0 <= a < n implies (#[trigger] due_requests(d)[a]).0
                != logs.last().execution_id@ by {
                let i = choose|i: int|
                    0 <= i < d.len() && (#[trigger] d[i]).execution_id@ == (
                    #[trigger] due_requests(d)[a]).0 && d[i].fetch_state == FetchState::Requested(
                        due_requests(d)[a].1,
                    );
                assert(d[i] == logs[i]);
                assert(logs[logs.len() - 1] == logs.last());
            }
        }
    }
}

/// The length of the longest execution id among some logs.
pub open spec fn longest_id(logs: Seq<ExecutionLog>) -> nat
    decreases logs.len(),
{
    if logs.len() == 0 {
        0
    } else if logs.last().execution_id@.len() > longest_id(logs.drop_last()) {
        logs.last().execution_id@.len()
    } else {
        longest_id(logs.drop_last())
    }
}

proof fn lemma_longest_id(logs: Seq<ExecutionLog>, i: int)
    requires
        0 <= i < logs.len(),
    ensures
        logs[i].execution_id@.len() <= longest_id(logs),
    decreases logs.len(),
{
    if i < logs.len() - 1 {
        assert(logs.drop_last()[i] == logs[i]);
        lemma_longest_id(logs.drop_last(), i);
    }
}

/// What the driver does after a page was stored.
#[derive(Clone, Copy, Debug, PartialEq, Eq, Structural)]
pub enum PageAction {
    /// The log is complete: nothing more is fetched for this execution.
    Stop,
    /// Wait `SLEEP_MILLIS`, then ask for the page that starts at these cursors.
    ContinueAfterDelay(Cursors),
}

/// Per-execution logs of events and join-set responses, each filled page by
/// page in the order the pages arrive, with each execution's fetch state.
pub struct EventStore {
    index: IdIndex,
    logs: Vec<ExecutionLog>,
}

impl EventStore {
    /// The index and the logs agree: each registered id points at its log.
    pub closed spec fn wf(&self) -> bool {
        &&& forall|k: Seq<char>| #[trigger]
            index_entries(self.index).contains_key(k) ==> index_entries(self.index)[k]
                < self.logs@.len() && self.logs@[index_entries(self.index)[k] as int].execution_id@
                == k
        &&& forall|i: int|
            0 <= i < self.logs@.len() ==> index_entries(self.index).contains_key(
                (#[trigger] self.logs@[i]).execution_id@,
            ) && index_entries(self.index)[self.logs@[i].execution_id@] == i
    }

    /// The log of an execution, if it was registered.
    pub closed spec fn log(&self, id: Seq<char>) -> Option<ExecutionLog> {
        if index_entries(self.index).contains_key(id) {
            Some(self.logs@[index_entries(self.index)[id] as int])
        } else {
            None
        }
    }

    /// The registered executions, in the order they were registered.
    pub closed spec fn logs(&self) -> Seq<ExecutionLog> {
        self.logs@
    }

    /// The events loaded for an execution; empty when it is unknown.
    pub open spec fn events_of(&self, id: Seq<char>) -> Seq<ExecutionEvent> {
        match self.log(id) {
            Some(l) => l.events@,
            None => seq![],
        }
    }

    /// The responses loaded for an execution; empty when it is unknown.
    pub open spec fn responses_of(&self, id: Seq<char>) -> Seq<JoinSetResponseEvent> {
        match self.log(id) {
            Some(l) => l.responses@,
            None => seq![],
        }
    }

    /// The status last reported for an execution, if any.
    pub open spec fn status_of(&self, id: Seq<char>) -> Option<ExecutionStatus> {
        match self.log(id) {
            Some(l) => l.status,
            None => None,
        }
    }

    /// The fetch state of an execution, if it was registered.
    pub open spec fn state_of(&self, id: Seq<char>) -> Option<FetchState> {
        match self.log(id) {
            Some(l) => Some(l.fetch_state),
            None => None,
        }
    }

    pub fn new() -> (r: EventStore)
        ensures
            r.wf(),
            forall|id: Seq<char>| r.log(id) is None,
            r.logs().len() == 0,
    {
        EventStore { index: index_new(), logs: Vec::new() }
    }

    /// No registered id is longer than `longest_id(self.logs())`.
    pub proof fn lemma_registered_id_len(&self, k: Seq<char>)
        requires
            self.wf(),
            self.log(k) is Some,
        ensures
            k.len() <= longest_id(self.logs()),
    {
        lemma_longest_id(self.logs@, index_entries(self.index)[k] as int);
    }

    /// The length of the longest registered execution id.
    pub fn longest_id_len(&self) -> (r: usize)
        ensures
            r == longest_id(self.logs()),
    {
        let mut best: usize = 0;
        for i in 0..self.logs.len()
            invariant
                best == longest_id(self.logs@.take(i as int)),
        {
            proof {
                assert(self.logs@.take(i as int + 1).drop_last() =~= self.logs@.take(i as int));
            }
            let len = self.logs[i].execution_id.id.as_str().unicode_len();
            if len > best {
                best = len;
            }
        }
        proof {
            assert(self.logs@.take(self.logs@.len() as int) =~= self.logs@);
        }
        best
    }

    /// How many executions are registered.
    pub fn num_executions(&self) -> (r: usize)
        ensures
            r == self.logs().len(),
    {
        self.logs.len()
    }

    fn position(&self, id: &ExecutionId) -> (r: Option<usize>)
        requires
            self.wf(),
        ensures
            match r {
                None => self.log(id@) is None,
                Some(i) => i < self.logs@.len() && self.log(id@) == Some(self.logs@[i as int])
                    && self.logs@[i as int].execution_id@ == id@,
            },
    {
        index_get(&self.index, id.id.as_str())
    }

    /// The log of an execution, if it was registered.
    pub fn get(&self, id: &ExecutionId) -> (r: Option<&ExecutionLog>)
        requires
            self.wf(),
        ensures
            match r {
                None => self.log(id@) is None,
                Some(l) => self.log(id@) == Some(*l),
            },
    {
        match self.position(id) {
            None => None,
            Some(i) => Some(&self.logs[i]),
        }
    }

    /// Registers a log for `id` in the given state unless one exists; returns its position.
    fn ensure_log(&mut self, id: &ExecutionId, state: FetchState) -> (r: usize)
        requires
            old(self).wf(),
        ensures
            final(self).wf(),
            r < final(self).logs@.len(),
            final(self).logs@[r as int].execution_id@ == id@,
            final(self).log(id@) == Some(final(self).logs@[r as int]),
            old(self).log(id@) is Some ==> final(self).logs@ == old(self).logs@,
            old(self).log(id@) is Some ==> final(self).log(id@) == old(self).log(id@),
            old(self).log(id@) is None ==> final(self).logs@ == old(self).logs@.push(
                final(self).logs@[r as int],
            ),
            old(self).log(id@) is None ==> final(self).logs@[r as int].fetch_state == state
                && final(self).logs@[r as int].events@.len() == 0
                && final(self).logs@[r as int].responses@.len() == 0
                && final(self).logs@[r as int].status is None,
            forall|k: Seq<char>| k != id@ ==> #[trigger] final(self).log(k) == old(self).log(k),
    {
        match self.position(id) {
            Some(i) => i,
            None => {
                let n = self.logs.len();
                let log = ExecutionLog {
                    execution_id: id.clone(),
                    fetch_state: state,
                    events: Vec::new(),
                    responses: Vec::new(),
                    status: None,
                };
                self.logs.push(log);
                index_insert(&mut self.index, id.id.clone(), n);
                proof {
                    assert forall|k: Seq<char>| k != id@ implies #[trigger] self.log(k) == old(
                        self,
                    ).log(k) by {
                        if index_entries(old(self).index).contains_key(k) {
                            assert(self.logs@[index_entries(self.index)[k] as int] == old(
                                self,
                            ).logs@[index_entries(old(self).index)[k] as int]);
                        }
                    }
                    assert forall|i: int| 0 <= i < self.logs@.len() implies index_entries(
                        self.index,
                    ).contains_key((#[trigger] self.logs@[i]).execution_id@)
                        && index_entries(self.index)[self.logs@[i].execution_id@] == i by {
                        if i < n {
                            assert(self.logs@[i] == old(self).logs@[i]);
                            if self.logs@[i].execution_id@ == id@ {
                                assert(old(self).log(id@) is Some);
                            }
                        }
                    }
                }
                n
            },
        }
    }

    /// Registers an execution to be fetched from its first page; an execution
    /// that is already known is left as it is.
    pub fn add_execution_id(&mut self, id: ExecutionId)
        requires
            old(self).wf(),
        ensures
            final(self).wf(),
            old(self).log(id@) is Some ==> final(self).log(id@) == old(self).log(id@),
            old(self).log(id@) is None ==> final(self).state_of(id@) == Some(
                FetchState::Requested(Cursors { version_from: 0, responses_cursor_from: 0 }),
            ) && final(self).events_of(id@).len() == 0 && final(self).responses_of(id@).len()
                == 0 && final(self).status_of(id@) is None,
            forall|k: Seq<char>| k != id@ ==> #[trigger] final(self).log(k) == old(self).log(k),
    {
        self.ensure_log(&id, FetchState::Requested(Cursors::initial()));
    }

    /// Appends a page to an execution's log: its events after the events
    /// already there, its responses after the responses already there. Nothing
    /// is reordered or dropped. An unknown execution is registered, pending.
    pub fn append(
        &mut self,
        id: &ExecutionId,
        events: Vec<ExecutionEvent>,
        responses: Vec<ResponseWithCursor>,
    )
        requires
            old(self).wf(),
        ensures
            final(self).wf(),
            final(self).events_of(id@) == old(self).events_of(id@) + events@,
            final(self).responses_of(id@) == old(self).responses_of(id@) + page_responses(
                responses@,
            ),
            final(self).state_of(id@) == (match old(self).state_of(id@) {
                Some(s) => Some(s),
                None => Some(FetchState::Pending),
            }),
            final(self).status_of(id@) == old(self).status_of(id@),
            forall|k: Seq<char>| k != id@ ==> #[trigger] final(self).log(k) == old(self).log(k),
    {
        let i = self.ensure_log(id, FetchState::Pending);
        let ghost mid = self.logs@[i as int];
        let mut events = events;
        let ghost snap = *self;
        let ghost page_events = events@;
        self.logs[i].events.append(&mut events);
        let ghost start = self.logs@[i as int].responses@;
        let ghost page = responses@;
        for r in it: responses
            invariant
                self.wf(),
                i < self.logs@.len(),
                it.seq() == page,
                self.logs@[i as int].execution_id@ == id@,
                self.logs@[i as int].fetch_state == mid.fetch_state,
                self.logs@[i as int].status == mid.status,
                self.logs@[i as int].events@ == mid.events@ + page_events,
                self.logs@[i as int].responses@ == start + page_responses(
                    page.take(it.index() as int),
                ),
                self.index == snap.index,
                self.logs@.len() == snap.logs@.len(),
                forall|j: int| 0 <= j < self.logs@.len() && j != i ==> self.logs@[j] == snap.logs@[j],
        {
            proof {
                assert(page.take(it.index() as int + 1) =~= page.take(it.index() as int).push(r));
                assert(page_responses(page.take(it.index() as int).push(r)) =~= page_responses(
                    page.take(it.index() as int),
                ).push(r.event));
            }
            self.logs[i].responses.push(r.event);
        }
        proof {
            assert(page.take(page.len() as int) =~= page);
            assert forall|k: Seq<char>| k != id@ implies #[trigger] self.log(k) == old(self).log(
                k,
            ) by {
                assert(snap.log(k) == old(self).log(k));
                if index_entries(self.index).contains_key(k) {
                    let j = index_entries(self.index)[k] as int;
                    assert(snap.logs@[j].execution_id@ == k);
                    assert(j != i);
                }
            }
        }
    }

    /// Marks every requested execution as pending and returns the page
    /// requests to send, in registration order.
    pub fn take_requested(&mut self) -> (r: Vec<PageRequest>)
        requires
            old(self).wf(),
        ensures
            final(self).wf(),
            final(self).logs() == old(self).logs().map_values(|l: ExecutionLog| dispatched(l)),
            forall|k: Seq<char>| #[trigger]
                final(self).log(k) == match old(self).log(k) {
                    Some(l) => Some(dispatched(l)),
                    None => None,
                },
            r@.len() == due_requests(old(self).logs()).len(),
            forall|j: int|
                0 <= j < r@.len() ==> request_matches_state(
                    old(self).state_of((#[trigger] r@[j]).execution_id@),
                    r@[j].execution_id@,
                    r@[j],
                ),
            forall|k: Seq<char>|
                (#[trigger] old(self).state_of(k) matches Some(FetchState::Requested(_)))
                    ==> exists|j: int| 0 <= j < r@.len() && (#[trigger] r@[j]).execution_id@ == k,
            forall|a: int, b: int|
                0 <= a < r@.len() && 0 <= b < r@.len() && (#[trigger] r@[a]).execution_id@ == (
                #[trigger] r@[b]).execution_id@ ==> a == b,
            forall|j: int|
                0 <= j < r@.len() ==> request_for(
                    due_requests(old(self).logs())[j].0,
                    due_requests(old(self).logs())[j].1,
                    #[trigger] r@[j],
                ),
    {
        let mut out: Vec<PageRequest> = Vec::new();
        let n = self.logs.len();
        let ghost start = self.logs@;
        for i in 0..n
            invariant
                n == self.logs@.len(),
                start.len() == n,
                self.index == old(self).index,
                start == old(self).logs@,
                forall|j: int| 0 <= j < i ==> self.logs@[j] == dispatched(#[trigger] start[j]),
                forall|j: int| i <= j < n ==> self.logs@[j] == #[trigger] start[j],
                out@.len() == due_requests(start.take(i as int)).len(),
                forall|j: int|
                    0 <= j < out@.len() ==> request_for(
                        due_requests(start.take(i as int))[j].0,
                        due_requests(start.take(i as int))[j].1,
                        #[trigger] out@[j],
                    ),
        {
            proof {
                assert(start.take(i as int + 1).drop_last() =~= start.take(i as int));
            }
            match self.logs[i].fetch_state {
                FetchState::Requested(c) => {
                    self.logs[i].fetch_state = FetchState::Pending;
                    let req = page_request(&self.logs[i].execution_id, c);
                    out.push(req);
                },
                _ => {},
            }
            proof {
                assert(self.logs@[i as int] == dispatched(start[i as int]));
            }
        }
        proof {
            assert(start.take(n as int) =~= start);
            let ghost due = due_requests(start);
            lemma_due_sound(start);
            assert forall|a: int, b: int|
                0 <= a < start.len() && 0 <= b < start.len() && a != b implies (
                #[trigger] start[a]).execution_id@ != (#[trigger] start[b]).execution_id@ by {
                assert(index_entries(old(self).index)[start[a].execution_id@] == a);
                assert(index_entries(old(self).index)[start[b].execution_id@] == b);
            }
            lemma_due_unique(start);
            assert forall|j: int| 0 <= j < out@.len() implies request_matches_state(
                old(self).state_of((#[trigger] out@[j]).execution_id@),
                out@[j].execution_id@,
                out@[j],
            ) by {
                assert(request_for(due[j].0, due[j].1, out@[j]));
                let i = choose|i: int|
                    0 <= i < start.len() && (#[trigger] start[i]).execution_id@ == (
                    #[trigger] due_requests(start)[j]).0 && start[i].fetch_state
                        == FetchState::Requested(due_requests(start)[j].1);
                assert(index_entries(old(self).index)[start[i].execution_id@] == i);
                assert(old(self).log(start[i].execution_id@) == Some(start[i]));
            }
            assert forall|k: Seq<char>|
                (#[trigger] old(self).state_of(k) matches Some(FetchState::Requested(_))) implies exists|j: int|
                    0 <= j < out@.len() && (#[trigger] out@[j]).execution_id@ == k by {
                let i = index_entries(old(self).index)[k] as int;
                assert(start[i].execution_id@ == k);
                lemma_due_complete(start, i);
                let j = choose|j: int|
                    0 <= j < due_requests(start).len() && #[trigger] due_requests(start)[j] == (
                        start[i].execution_id@,
                        start[i].fetch_state->Requested_0,
                    );
                assert(request_for(due[j].0, due[j].1, out@[j]));
            }
            assert forall|a: int, b: int|
                0 <= a < out@.len() && 0 <= b < out@.len() && (#[trigger] out@[a]).execution_id@ == (
                #[trigger] out@[b]).execution_id@ implies a == b by {
                assert(request_for(due[a].0, due[a].1, out@[a]));
                assert(request_for(due[b].0, due[b].1, out@[b]));
            }
            assert(self.logs@ =~= start.map_values(|l: ExecutionLog| dispatched(l)));
            assert forall|i: int| 0 <= i < self.logs@.len() implies index_entries(
                self.index,
            ).contains_key((#[trigger] self.logs@[i]).execution_id@)
                && index_entries(self.index)[self.logs@[i].execution_id@] == i by {
                assert(old(self).logs@[i].execution_id == self.logs@[i].execution_id);
            }
        }
        out
    }

    /// Stores a page fetched from `prev` and decides what comes next: the
    /// execution is finished when the page's last event is `Finished` (or it
    /// was finished before), and nothing more is fetched; otherwise it stays
    /// pending until the next page is asked for, from the cursors past this page.
    pub fn save_page(
        &mut self,
        id: &ExecutionId,
        prev: Cursors,
        events: Vec<ExecutionEvent>,
        responses: Vec<ResponseWithCursor>,
        current_status: ExecutionStatus,
    ) -> (r: PageAction)
        requires
            old(self).wf(),
        ensures
            final(self).wf(),
            final(self).status_of(id@) == Some(current_status),
            final(self).events_of(id@) == old(self).events_of(id@) + events@,
            final(self).responses_of(id@) == old(self).responses_of(id@) + page_responses(
                responses@,
            ),
            (page_finishes(events@) || old(self).state_of(id@) == Some(FetchState::Finished))
                ==> r == PageAction::Stop && final(self).state_of(id@) == Some(
                FetchState::Finished,
            ),
            !(page_finishes(events@) || old(self).state_of(id@) == Some(FetchState::Finished))
                ==> r == PageAction::ContinueAfterDelay(cursors_after(prev, events@, responses@))
                && final(self).state_of(id@) == Some(FetchState::Pending),
            forall|k: Seq<char>| k != id@ ==> #[trigger] final(self).log(k) == old(self).log(k),
    {
        let finishing = is_finishing_page(&events);
        let cursors = next_cursors(prev, &events, &responses);
        self.append(id, events, responses);
        let i = self.ensure_log(id, FetchState::Pending);
        let finished = finishing || self.logs[i].fetch_state == FetchState::Finished;
        self.set_state(i, if finished { FetchState::Finished } else { FetchState::Pending });
        self.set_status(i, current_status);
        if finished {
            PageAction::Stop
        } else {
            PageAction::ContinueAfterDelay(cursors)
        }
    }

    /// After the delay, asks for the page that starts at `cursors`; a
    /// finished execution stays finished.
    pub fn request_next_page(&mut self, id: &ExecutionId, cursors: Cursors)
        requires
            old(self).wf(),
        ensures
            final(self).wf(),
            final(self).events_of(id@) == old(self).events_of(id@),
            final(self).responses_of(id@) == old(self).responses_of(id@),
            final(self).status_of(id@) == old(self).status_of(id@),
            final(self).state_of(id@) == if old(self).state_of(id@) == Some(FetchState::Finished) {
                Some(FetchState::Finished)
            } else {
                Some(FetchState::Requested(cursors))
            },
            forall|k: Seq<char>| k != id@ ==> #[trigger] final(self).log(k) == old(self).log(k),
    {
        let i = self.ensure_log(id, FetchState::Requested(cursors));
        if self.logs[i].fetch_state != FetchState::Finished {
            self.set_state(i, FetchState::Requested(cursors));
        }
    }

    fn set_status(&mut self, i: usize, status: ExecutionStatus)
        requires
            old(self).wf(),
            i < old(self).logs@.len(),
        ensures
            final(self).wf(),
            final(self).logs@ == old(self).logs@.update(
                i as int,
                ExecutionLog { status: Some(status), ..old(self).logs@[i as int] },
            ),
            final(self).log(old(self).logs@[i as int].execution_id@) == Some(
                ExecutionLog { status: Some(status), ..old(self).logs@[i as int] },
            ),
            forall|k: Seq<char>|
                k != old(self).logs@[i as int].execution_id@ ==> #[trigger] final(self).log(k)
                    == old(self).log(k),
    {
        self.logs[i].status = Some(status);
        proof {
            assert forall|k: Seq<char>| k != old(self).logs@[i as int].execution_id@ implies #[trigger] self.log(k) == old(self).log(k) by {
                if index_entries(self.index).contains_key(k) {
                    assert(index_entries(self.index)[k] != i);
                }
            }
            assert forall|j: int| 0 <= j < self.logs@.len() implies index_entries(
                self.index,
            ).contains_key((#[trigger] self.logs@[j]).execution_id@)
                && index_entries(self.index)[self.logs@[j].execution_id@] == j by {
                assert(old(self).logs@[j].execution_id == self.logs@[j].execution_id);
            }
        }
    }

    fn set_state(&mut self, i: usize, state: FetchState)
        requires
            old(self).wf(),
            i < old(self).logs@.len(),
        ensures
            final(self).wf(),
            final(self).logs@ == old(self).logs@.update(
                i as int,
                ExecutionLog { fetch_state: state, ..old(self).logs@[i as int] },
            ),
            final(self).log(old(self).logs@[i as int].execution_id@) == Some(
                ExecutionLog { fetch_state: state, ..old(self).logs@[i as int] },
            ),
            forall|k: Seq<char>|
                k != old(self).logs@[i as int].execution_id@ ==> #[trigger] final(self).log(k)
                    == old(self).log(k),
    {
        self.logs[i].fetch_state = state;
        proof {
            assert forall|k: Seq<char>| k != old(self).logs@[i as int].execution_id@ implies #[trigger] self.log(k) == old(self).log(k) by {
                if index_entries(self.index).contains_key(k) {
                    assert(index_entries(self.index)[k] != i);
                }
            }
            assert forall|j: int| 0 <= j < self.logs@.len() implies index_entries(
                self.index,
            ).contains_key((#[trigger] self.logs@[j]).execution_id@)
                && index_entries(self.index)[self.logs@[j].execution_id@] == j by {
                assert(old(self).logs@[j].execution_id == self.logs@[j].execution_id);
            }
        }
    }
}


/// The concatenation of a sequence of pages, in order.
pub open spec fn concat_pages<T>(pages: Seq<Seq<T>>) -> Seq<T>
    decreases pages.len(),
{
    if pages.len() == 0 {
        seq![]
    } else {
        concat_pages(pages.drop_last()) + pages.last()
    }
}

/// Appending pages one after another to an execution's store leaves its
/// events as the events before, followed by the pages' events in append
/// order, and likewise its responses. Each step is what `append` (or
/// `save_page`) promises about the execution it is given.
pub proof fn lemma_appends_concatenate(
    states: Seq<EventStore>,
    id: Seq<char>,
    event_pages: Seq<Seq<ExecutionEvent>>,
    response_pages: Seq<Seq<ResponseWithCursor>>,
)
    requires
        states.len() == event_pages.len() + 1,
        response_pages.len() == event_pages.len(),
        forall|i: int|
            0 <= i < event_pages.len() ==> (#[trigger] states[i + 1]).events_of(id) == states[i].events_of(
                id,
            ) + event_pages[i] && states[i + 1].responses_of(id) == states[i].responses_of(id)
                + page_responses(response_pages[i]),
    ensures
        states.last().events_of(id) == states[0].events_of(id) + concat_pages(event_pages),
        states[0].events_of(id).len() == 0 ==> states.last().events_of(id) == concat_pages(
            event_pages,
        ),
        states.last().responses_of(id) == states[0].responses_of(id) + concat_pages(
            response_pages.map_values(|p: Seq<ResponseWithCursor>| page_responses(p)),
        ),
    decreases event_pages.len(),
{
    let n = event_pages.len() as int;
    if states[0].events_of(id).len() == 0 {
        assert(states[0].events_of(id) =~= Seq::<ExecutionEvent>::empty());
        assert(Seq::<ExecutionEvent>::empty() + concat_pages(event_pages) =~= concat_pages(event_pages));
    }
    if n == 0 {
        assert(states[0].events_of(id) + concat_pages(event_pages) =~= states[0].events_of(id));
        let rp = response_pages.map_values(|p: Seq<ResponseWithCursor>| page_responses(p));
        assert(states[0].responses_of(id) + concat_pages(rp) =~= states[0].responses_of(id));
    } else {
        let s2 = states.drop_last();
        let e2 = event_pages.drop_last();
        let r2 = response_pages.drop_last();
        assert forall|i: int| 0 <= i < e2.len() implies (#[trigger] s2[i + 1]).events_of(id) == s2[i].events_of(
            id,
        ) + e2[i] && s2[i + 1].responses_of(id) == s2[i].responses_of(id) + page_responses(r2[i]) by {
            assert(s2[i + 1] == states[i + 1] && s2[i] == states[i]);
        }
        lemma_appends_concatenate(s2, id, e2, r2);
        assert(states[n] == states.last());
        assert(states[n - 1] == s2.last());
        assert(states[(n - 1) + 1] == states[n]);
        assert(states.last().events_of(id) =~= states[0].events_of(id) + concat_pages(event_pages));
        let rp = response_pages.map_values(|p: Seq<ResponseWithCursor>| page_responses(p));
        let rp2 = r2.map_values(|p: Seq<ResponseWithCursor>| page_responses(p));
        assert(rp.drop_last() =~= rp2);
        assert(states.last().responses_of(id) =~= states[0].responses_of(id) + concat_pages(rp));
    }
}


/// Once an execution is finished, no page request is issued for it: every
/// request that `take_requested` returns is for an execution that was
/// requested, never for a finished one.
pub proof fn lemma_finished_gets_no_request(store: EventStore, id: Seq<char>, reqs: Seq<PageRequest>)
    requires
        store.state_of(id) == Some(FetchState::Finished),
        forall|j: int|
            0 <= j < reqs.len() ==> request_matches_state(
                store.state_of((#[trigger] reqs[j]).execution_id@),
                reqs[j].execution_id@,
                reqs[j],
            ),
    ensures
        forall|j: int| 0 <= j < reqs.len() ==> (#[trigger] reqs[j]).execution_id@ != id,
{
    assert forall|j: int| 0 <= j < reqs.len() implies (#[trigger] reqs[j]).execution_id@ != id by {
        assert(request_matches_state(store.state_of(reqs[j].execution_id@), reqs[j].execution_id@, reqs[j]));
    }
}

} // verus!
