use crate::events::Version;
use crate::ids::{ComponentId, ExecutionId};
use hashbrown::HashMap;
use vstd::prelude::*;

verus! {

/// Which backtrace to fetch: the first one recorded, or the one at a version.
#[derive(Clone, Copy, Debug, PartialEq, Eq, Structural)]
pub enum BacktraceFilter {
    First,
    Specific(Version),
}

/// Why a backtrace could not be had.
#[derive(Clone, Copy, Debug, PartialEq, Eq, Structural)]
pub enum BacktraceError {
    /// No backtrace is recorded at or before that version: a valid answer.
    NotFound,
    /// Any other failure.
    Other,
}

/// One source location of a frame.
#[derive(Debug)]
pub struct FrameSymbol {
    pub func_name: Option<String>,
    pub file: Option<String>,
    pub line: Option<u32>,
    pub col: Option<u32>,
}

/// One frame of a WASM call stack.
#[derive(Debug)]
pub struct FrameInfo {
    pub module: String,
    pub func_name: String,
    pub symbols: Vec<FrameSymbol>,
}

/// A call stack and the versions of the log it covers.
#[derive(Debug)]
pub struct WasmBacktrace {
    pub version_min_including: Version,
    pub version_max_excluding: Version,
    pub frames: Vec<FrameInfo>,
}

/// A backtrace as the server returns it.
#[derive(Debug)]
pub struct BacktraceResponse {
    pub component_id: ComponentId,
    pub wasm_backtrace: WasmBacktrace,
}

/// What the cache holds for one (execution, version).
#[derive(Debug)]
pub enum BacktraceSlot {
    /// A fetch was issued and has not answered yet.
    Requested,
    /// The answer, kept for good.
    Loaded(Result<BacktraceResponse, BacktraceError>),
}

/// What the debugger shows for a backtrace.
#[derive(Clone, Copy, Debug, PartialEq, Eq, Structural)]
pub enum BacktraceStatus {
    Loading,
    NotFound,
    Failed,
    Loaded,
}

/// One cached backtrace.
#[derive(Debug)]
pub struct BacktraceEntry {
    pub execution_id: ExecutionId,
    pub version: Version,
    pub slot: BacktraceSlot,
}

/// The key of a backtrace: execution id and version.
pub open spec fn entry_key(e: BacktraceEntry) -> (Seq<char>, Version) {
    (e.execution_id@, e.version)
}

/// The filter that fetches the backtrace at `version`: version 0 asks for the first one.
pub open spec fn filter_for(version: Version) -> BacktraceFilter {
    if version == 0 {
        BacktraceFilter::First
    } else {
        BacktraceFilter::Specific(version)
    }
}

/// The state of the key set and whether a fetch is issued, after a request
/// for `k`: a fetch only for a key never seen before.
pub open spec fn request_outcome(keys: Set<(Seq<char>, Version)>, k: (Seq<char>, Version)) -> (
    Set<(Seq<char>, Version)>,
    bool,
) {
    (keys.insert(k), !keys.contains(k))
}

/// The keys for which fetches are issued over a sequence of requests, in order.
pub open spec fn issued_fetches(keys: Set<(Seq<char>, Version)>, reqs: Seq<(Seq<char>, Version)>) -> Seq<
    (Seq<char>, Version),
>
    decreases reqs.len(),
{
    if reqs.len() == 0 {
        seq![]
    } else {
        let prev = issued_fetches(keys, reqs.drop_last());
        let before = keys.union(reqs.drop_last().to_set());
        if request_outcome(before, reqs.last()).1 {
            prev.push(reqs.last())
        } else {
            prev
        }
    }
}

proof fn lemma_issued_within(keys: Set<(Seq<char>, Version)>, reqs: Seq<(Seq<char>, Version)>)
    ensures
        forall|i: int|
            0 <= i < issued_fetches(keys, reqs).len() ==> !keys.contains(
                #[trigger] issued_fetches(keys, reqs)[i],
            ) && reqs.contains(issued_fetches(keys, reqs)[i]),
    decreases reqs.len(),
{
    if reqs.len() > 0 {
        lemma_issued_within(keys, reqs.drop_last());
        let prev = issued_fetches(keys, reqs.drop_last());
        assert forall|i: int| 0 <= i < prev.len() implies reqs.contains(#[trigger] prev[i]) by {
            let j = choose|j: int| 0 <= j < reqs.drop_last().len() && reqs.drop_last()[j] == prev[i];
            assert(reqs[j] == prev[i]);
        }
        assert(reqs[reqs.len() - 1] == reqs.last());
    }
}

/// Whatever the order and repetition of requests, a backtrace fetch is issued
/// at most once per (execution, version), and never for a key already cached.
pub proof fn lemma_fetch_at_most_once(keys: Set<(Seq<char>, Version)>, reqs: Seq<(Seq<char>, Version)>)
    ensures
        forall|i: int, j: int|
            0 <= i < j < issued_fetches(keys, reqs).len() ==> #[trigger] issued_fetches(keys, reqs)[i]
                != #[trigger] issued_fetches(keys, reqs)[j],
        forall|i: int|
            0 <= i < issued_fetches(keys, reqs).len() ==> !keys.contains(
                #[trigger] issued_fetches(keys, reqs)[i],
            ),
    decreases reqs.len(),
{
    lemma_issued_within(keys, reqs);
    if reqs.len() > 0 {
        lemma_fetch_at_most_once(keys, reqs.drop_last());
        lemma_issued_within(keys, reqs.drop_last());
        let prev = issued_fetches(keys, reqs.drop_last());
        let before = keys.union(reqs.drop_last().to_set());
        if !before.contains(reqs.last()) {
            assert forall|i: int| 0 <= i < prev.len() implies prev[i] != reqs.last() by {
                assert(reqs.drop_last().contains(prev[i]));
                assert(reqs.drop_last().to_set().contains(prev[i]));
            }
        }
    }
}

/// Positions of cached backtraces, keyed by (execution id, version), in a
/// hashbrown map.
#[verifier::external_body]
pub struct KeyIndex {
    map: HashMap<(String, Version), usize>,
}

/// The entries of an index from backtrace keys to positions.
pub uninterp spec fn key_index_entries(m: KeyIndex) -> Map<(Seq<char>, Version), usize>;

/// Relies on `hashbrown::HashMap::new`: a new map holds no entry.
#[verifier::external_body]
fn key_index_new() -> (m: KeyIndex)
    ensures
        key_index_entries(m).dom() == Set::<(Seq<char>, Version)>::empty(),
{
    KeyIndex { map: HashMap::new() }
}

/// Relies on `hashbrown::HashMap::get`: the value stored under an equal key, if any.
#[verifier::external_body]
fn key_index_get(m: &KeyIndex, id: &String, version: Version) -> (r: Option<usize>)
    ensures
        r == (if key_index_entries(*m).contains_key((id@, version)) {
            Some(key_index_entries(*m)[(id@, version)])
        } else {
            None
        }),
{
    m.map.get(&(id.clone(), version)).copied()
}

/// Relies on `hashbrown::HashMap::insert`: the key maps to the value afterwards,
/// and every other key keeps its value.
#[verifier::external_body]
fn key_index_insert(m: &mut KeyIndex, id: String, version: Version, v: usize)
    ensures
        key_index_entries(*final(m)) == key_index_entries(*old(m)).insert((id@, version), v),
{
    m.map.insert((id, version), v);
}

/// Backtraces by (execution id, version), each fetched at most once: a
/// `Requested` marker stands for a fetch in flight, and answers are kept.
pub struct BacktraceCache {
    index: KeyIndex,
    entries: Vec<BacktraceEntry>,
}

impl BacktraceCache {
    /// The index and the entries agree: each cached key points at its entry.
    pub closed spec fn wf(&self) -> bool {
        &&& forall|k: (Seq<char>, Version)| #[trigger]
            key_index_entries(self.index).contains_key(k) ==> key_index_entries(self.index)[k]
                < self.entries@.len() && entry_key(
                self.entries@[key_index_entries(self.index)[k] as int],
            ) == k
        &&& forall|i: int|
            0 <= i < self.entries@.len() ==> key_index_entries(self.index).contains_key(
                entry_key(#[trigger] self.entries@[i]),
            ) && key_index_entries(self.index)[entry_key(self.entries@[i])] == i
    }

    /// What the cache holds for (execution id, version).
    pub closed spec fn slot(&self, k: (Seq<char>, Version)) -> Option<BacktraceSlot> {
        if key_index_entries(self.index).contains_key(k) {
            Some(self.entries@[key_index_entries(self.index)[k] as int].slot)
        } else {
            None
        }
    }

    /// The keys that hold something.
    pub open spec fn keys(&self) -> Set<(Seq<char>, Version)> {
        Set::new(|k: (Seq<char>, Version)| self.slot(k) is Some)
    }

    pub fn new() -> (r: BacktraceCache)
        ensures
            r.wf(),
            forall|k: (Seq<char>, Version)| r.slot(k) is None,
    {
        BacktraceCache { index: key_index_new(), entries: Vec::new() }
    }

    fn find(&self, id: &ExecutionId, version: Version) -> (r: Option<usize>)
        requires
            self.wf(),
        ensures
            match r {
                None => self.slot((id@, version)) is None,
                Some(i) => i < self.entries@.len() && entry_key(self.entries@[i as int]) == (
                    id@,
                    version,
                ) && self.slot((id@, version)) == Some(self.entries@[i as int].slot),
            },
    {
        key_index_get(&self.index, &id.id, version)
    }

    /// Replaces the slot of the entry at `i`; every other key keeps its slot.
    fn set_slot(&mut self, i: usize, slot: BacktraceSlot)
        requires
            old(self).wf(),
            i < old(self).entries@.len(),
        ensures
            final(self).wf(),
            final(self).slot(entry_key(old(self).entries@[i as int])) == Some(slot),
            forall|k: (Seq<char>, Version)|
                k != entry_key(old(self).entries@[i as int]) ==> #[trigger] final(self).slot(k)
                    == old(self).slot(k),
    {
        let ghost key = entry_key(self.entries@[i as int]);
        let old_entry = &self.entries[i];
        let e = BacktraceEntry {
            execution_id: old_entry.execution_id.clone(),
            version: old_entry.version,
            slot,
        };
        self.entries.set(i, e);
        proof {
            assert forall|k: (Seq<char>, Version)| k != key implies #[trigger] self.slot(k) == old(
                self,
            ).slot(k) by {
                if key_index_entries(self.index).contains_key(k) {
                    assert(key_index_entries(self.index)[k] != i);
                }
            }
            assert forall|j: int| 0 <= j < self.entries@.len() implies key_index_entries(
                self.index,
            ).contains_key(entry_key(#[trigger] self.entries@[j]))
                && key_index_entries(self.index)[entry_key(self.entries@[j])] == j by {
                assert(entry_key(old(self).entries@[j]) == entry_key(self.entries@[j]));
            }
        }
    }

    /// Adds an entry for a key the cache does not hold.
    fn add(&mut self, id: &ExecutionId, version: Version, slot: BacktraceSlot)
        requires
            old(self).wf(),
            old(self).slot((id@, version)) is None,
        ensures
            final(self).wf(),
            final(self).slot((id@, version)) == Some(slot),
            forall|k: (Seq<char>, Version)|
                k != (id@, version) ==> #[trigger] final(self).slot(k) == old(self).slot(k),
    {
        let n = self.entries.len();
        let e = BacktraceEntry { execution_id: id.clone(), version, slot };
        self.entries.push(e);
        key_index_insert(&mut self.index, id.id.clone(), version, n);
        proof {
            assert forall|k: (Seq<char>, Version)| k != (id@, version) implies #[trigger] self.slot(
                k,
            ) == old(self).slot(k) by {
                if key_index_entries(old(self).index).contains_key(k) {
                    assert(self.entries@[key_index_entries(self.index)[k] as int] == old(
                        self,
                    ).entries@[key_index_entries(old(self).index)[k] as int]);
                }
            }
            assert forall|j: int| 0 <= j < self.entries@.len() implies key_index_entries(
                self.index,
            ).contains_key(entry_key(#[trigger] self.entries@[j]))
                && key_index_entries(self.index)[entry_key(self.entries@[j])] == j by {
                if j < n {
                    assert(self.entries@[j] == old(self).entries@[j]);
                    if entry_key(self.entries@[j]) == (id@, version) {
                        assert(old(self).slot((id@, version)) is Some);
                    }
                }
            }
        }
    }

    /// Marks (execution id, version) as requested and returns the filter to
    /// fetch it with, unless the key is already cached or in flight: then no
    /// fetch is issued.
    pub fn request(&mut self, id: &ExecutionId, version: Version) -> (r: Option<BacktraceFilter>)
        requires
            old(self).wf(),
        ensures
            final(self).wf(),
            (final(self).keys(), r is Some) == request_outcome(old(self).keys(), (id@, version)),
            r is Some ==> r == Some(filter_for(version)),
            old(self).slot((id@, version)) is None ==> final(self).slot((id@, version)) == Some(
                BacktraceSlot::Requested,
            ),
            forall|k: (Seq<char>, Version)|
                old(self).slot(k) is Some ==> #[trigger] final(self).slot(k) == old(self).slot(k),
            forall|k: (Seq<char>, Version)|
                k != (id@, version) ==> #[trigger] final(self).slot(k) == old(self).slot(k),
    {
        match self.find(id, version) {
            Some(_) => {
                proof {
                    assert(final(self).keys() =~= old(self).keys().insert((id@, version)));
                }
                None
            },
            None => {
                self.add(id, version, BacktraceSlot::Requested);
                proof {
                    assert(self.keys() =~= old(self).keys().insert((id@, version)));
                }
                if version == 0 {
                    Some(BacktraceFilter::First)
                } else {
                    Some(BacktraceFilter::Specific(version))
                }
            },
        }
    }

    /// Keeps the answer of a fetch. An answer that is already kept stays:
    /// each key is resolved once.
    pub fn record(
        &mut self,
        id: &ExecutionId,
        version: Version,
        result: Result<BacktraceResponse, BacktraceError>,
    )
        requires
            old(self).wf(),
        ensures
            final(self).wf(),
            match old(self).slot((id@, version)) {
                Some(BacktraceSlot::Loaded(_)) => final(self).slot((id@, version)) == old(
                    self,
                ).slot((id@, version)),
                _ => final(self).slot((id@, version)) == Some(BacktraceSlot::Loaded(result)),
            },
            forall|k: (Seq<char>, Version)|
                k != (id@, version) ==> #[trigger] final(self).slot(k) == old(self).slot(k),
    {
        match self.find(id, version) {
            Some(i) => {
                let loaded = match &self.entries[i].slot {
                    BacktraceSlot::Loaded(_) => true,
                    BacktraceSlot::Requested => false,
                };
                if !loaded {
                    self.set_slot(i, BacktraceSlot::Loaded(result));
                }
            },
            None => {
                self.add(id, version, BacktraceSlot::Loaded(result));
            },
        }
    }

    /// What the debugger shows for (execution id, version): loading while no
    /// answer is kept, then the kept answer.
    pub fn status(&self, id: &ExecutionId, version: Version) -> (r: BacktraceStatus)
        requires
            self.wf(),
        ensures
            r == match self.slot((id@, version)) {
                None => BacktraceStatus::Loading,
                Some(BacktraceSlot::Requested) => BacktraceStatus::Loading,
                Some(BacktraceSlot::Loaded(Ok(_))) => BacktraceStatus::Loaded,
                Some(BacktraceSlot::Loaded(Err(BacktraceError::NotFound))) => BacktraceStatus::NotFound,
                Some(BacktraceSlot::Loaded(Err(BacktraceError::Other))) => BacktraceStatus::Failed,
            },
    {
        match self.find(id, version) {
            None => BacktraceStatus::Loading,
            Some(i) => match &self.entries[i].slot {
                BacktraceSlot::Requested => BacktraceStatus::Loading,
                BacktraceSlot::Loaded(Ok(_)) => BacktraceStatus::Loaded,
                BacktraceSlot::Loaded(Err(BacktraceError::NotFound)) => BacktraceStatus::NotFound,
                BacktraceSlot::Loaded(Err(BacktraceError::Other)) => BacktraceStatus::Failed,
            },
        }
    }

    /// The backtrace kept for (execution id, version), once it was fetched.
    pub fn get(&self, id: &ExecutionId, version: Version) -> (r: Option<&BacktraceResponse>)
        requires
            self.wf(),
        ensures
            match r {
                Some(b) => self.slot((id@, version)) == Some(BacktraceSlot::Loaded(Ok(*b))),
                None => !(self.slot((id@, version)) matches Some(BacktraceSlot::Loaded(Ok(_)))),
            },
    {
        match self.find(id, version) {
            None => None,
            Some(i) => match &self.entries[i].slot {
                BacktraceSlot::Loaded(Ok(b)) => Some(b),
                _ => None,
            },
        }
    }
}

/// What the cache holds for one source file of a component.
#[derive(Debug)]
pub enum SourceCodeState {
    /// Wanted; no fetch was issued yet.
    Requested,
    /// A fetch was issued.
    InFlight,
    /// The rendered lines with their line numbers, counted from 1.
    Found(Vec<(String, usize)>),
    /// The fetch failed; it is not retried.
    NotFoundOrErr,
}

/// One cached source file.
#[derive(Debug)]
pub struct SourceEntry {
    pub component_id: ComponentId,
    pub file: String,
    pub state: SourceCodeState,
}

/// The key of a source file: component id and file name.
pub type SourceKeyView = ((crate::ids::ComponentType, Seq<char>, Seq<char>), Seq<char>);

pub open spec fn source_key(e: SourceEntry) -> SourceKeyView {
    (e.component_id@, e.file@)
}

/// What a sequence of entries holds for a key: the last entry with that key.
pub open spec fn state_in(es: Seq<SourceEntry>, k: SourceKeyView) -> Option<SourceCodeState>
    decreases es.len(),
{
    if es.len() == 0 {
        None
    } else if source_key(es.last()) == k {
        Some(es.last().state)
    } else {
        state_in(es.drop_last(), k)
    }
}

/// A state after its fetch was issued: requested becomes in flight.
pub open spec fn issued(s: SourceCodeState) -> SourceCodeState {
    match s {
        SourceCodeState::Requested => SourceCodeState::InFlight,
        _ => s,
    }
}

pub open spec fn entry_issued(e: SourceEntry) -> SourceEntry {
    SourceEntry { state: issued(e.state), ..e }
}

/// The file names that the frames of a backtrace refer to.
pub open spec fn refers_to(b: BacktraceResponse, file: Seq<char>) -> bool {
    exists|i: int, j: int|
        0 <= i < b.wasm_backtrace.frames@.len() && 0 <= j
            < b.wasm_backtrace.frames@[i].symbols@.len() && #[trigger] file_of(
            b.wasm_backtrace.frames@[i].symbols@[j],
        ) == Some(file)
}

/// The file name of a symbol's location, if it has one.
pub open spec fn file_of(s: FrameSymbol) -> Option<Seq<char>> {
    match s.file {
        Some(f) => Some(f@),
        None => None,
    }
}

proof fn lemma_state_push(es: Seq<SourceEntry>, e: SourceEntry, k: SourceKeyView)
    ensures
        state_in(es.push(e), k) == if k == source_key(e) {
            Some(e.state)
        } else {
            state_in(es, k)
        },
{
    assert(es.push(e).drop_last() =~= es);
}

proof fn lemma_state_update(es: Seq<SourceEntry>, i: int, e: SourceEntry, k: SourceKeyView)
    requires
        0 <= i < es.len(),
        source_key(es[i]) == source_key(e),
        forall|j: int| i < j < es.len() ==> source_key(#[trigger] es[j]) != source_key(e),
    ensures
        state_in(es.update(i, e), k) == if k == source_key(e) {
            Some(e.state)
        } else {
            state_in(es, k)
        },
    decreases es.len(),
{
    if i == es.len() - 1 {
        assert(es.update(i, e).drop_last() =~= es.drop_last());
    } else {
        assert(es.update(i, e).drop_last() =~= es.drop_last().update(i, e));
        lemma_state_update(es.drop_last(), i, e, k);
    }
}

proof fn lemma_state_issued(es: Seq<SourceEntry>, k: SourceKeyView)
    ensures
        state_in(es.map_values(|e: SourceEntry| entry_issued(e)), k) == match state_in(es, k) {
            Some(s) => Some(issued(s)),
            None => None,
        },
    decreases es.len(),
{
    if es.len() > 0 {
        assert(es.map_values(|e: SourceEntry| entry_issued(e)).drop_last() =~= es.drop_last().map_values(
            |e: SourceEntry| entry_issued(e),
        ));
        lemma_state_issued(es.drop_last(), k);
    }
}

/// The keys of the entries that are wanted and not yet fetched, in order.
pub open spec fn requested_in(es: Seq<SourceEntry>) -> Seq<SourceKeyView>
    decreases es.len(),
{
    if es.len() == 0 {
        seq![]
    } else if es.last().state == SourceCodeState::Requested {
        requested_in(es.drop_last()).push(source_key(es.last()))
    } else {
        requested_in(es.drop_last())
    }
}

/// The keys of a list of (component id, file name) pairs.
pub open spec fn key_views(ks: Seq<(ComponentId, String)>) -> Seq<SourceKeyView>
    decreases ks.len(),
{
    if ks.len() == 0 {
        seq![]
    } else {
        key_views(ks.drop_last()).push((ks.last().0@, ks.last().1@))
    }
}

proof fn lemma_requested_in(es: Seq<SourceEntry>, k: SourceKeyView)
    requires
        state_in(es, k) == Some(SourceCodeState::Requested),
    ensures
        requested_in(es).contains(k),
    decreases es.len(),
{
    if source_key(es.last()) == k {
        assert(requested_in(es).last() == k);
    } else {
        lemma_requested_in(es.drop_last(), k);
        let j = choose|j: int| 0 <= j < requested_in(es.drop_last()).len() && requested_in(es.drop_last())[j] == k;
        assert(requested_in(es)[j] == k);
    }
}

/// Pairs each rendered line with its line number, counted from 1.
pub fn number_lines(lines: Vec<String>) -> (r: Vec<(String, usize)>)
    ensures
        r@.len() == lines@.len(),
        forall|i: int| 0 <= i < r@.len() ==> #[trigger] r@[i] == (lines@[i], (i + 1) as usize),
{
    let mut out: Vec<(String, usize)> = Vec::new();
    let ghost all = lines@;
    let mut n: usize = 0;
    let len = lines.len();
    for line in it: lines
        invariant
            it.seq() == all,
            all.len() == len,
            n == it.index(),
            n <= all.len(),
            out@.len() == n,
            forall|i: int| 0 <= i < n ==> #[trigger] out@[i] == (all[i], (i + 1) as usize),
    {
        proof {
            assert(it.index() < all.len());
        }
        out.push((line, n + 1));
        n = n + 1;
    }
    out
}

/// Source files by (component id, file name), each fetched at most once.
pub struct SourceCache {
    entries: Vec<SourceEntry>,
}

impl SourceCache {
    /// What the cache holds for (component id, file name).
    pub closed spec fn state(&self, k: SourceKeyView) -> Option<SourceCodeState> {
        state_in(self.entries@, k)
    }

    pub fn new() -> (r: SourceCache)
        ensures
            forall|k: SourceKeyView| r.state(k) is None,
    {
        SourceCache { entries: Vec::new() }
    }

    fn find(&self, component_id: &ComponentId, file: &String) -> (r: Option<usize>)
        ensures
            match r {
                None => self.state((component_id@, file@)) is None,
                Some(i) => i < self.entries@.len() && source_key(self.entries@[i as int]) == (
                    component_id@,
                    file@,
                ) && self.state((component_id@, file@)) == Some(self.entries@[i as int].state)
                    && forall|j: int|
                    i < j < self.entries@.len() ==> source_key(#[trigger] self.entries@[j]) != (
                        component_id@,
                        file@,
                    ),
            },
    {
        let mut i = self.entries.len();
        proof {
            assert(self.entries@.take(i as int) =~= self.entries@);
        }
        while i > 0
            invariant
                i <= self.entries@.len(),
                state_in(self.entries@, (component_id@, file@)) == state_in(
                    self.entries@.take(i as int),
                    (component_id@, file@),
                ),
                forall|j: int|
                    i <= j < self.entries@.len() ==> source_key(#[trigger] self.entries@[j]) != (
                        component_id@,
                        file@,
                    ),
            decreases i,
        {
            proof {
                assert(self.entries@.take(i as int).drop_last() =~= self.entries@.take(i as int - 1));
            }
            if self.entries[i - 1].file == *file && self.entries[i - 1].component_id == *component_id {
                return Some(i - 1);
            }
            i = i - 1;
        }
        None
    }

    /// Marks a file as wanted, unless the cache already holds anything for it.
    pub fn request(&mut self, component_id: &ComponentId, file: &String)
        ensures
            old(self).state((component_id@, file@)) is None ==> final(self).state(
                (component_id@, file@),
            ) == Some(SourceCodeState::Requested),
            forall|k: SourceKeyView|
                old(self).state(k) is Some ==> #[trigger] final(self).state(k) == old(self).state(k),
            forall|k: SourceKeyView|
                k != (component_id@, file@) ==> #[trigger] final(self).state(k) == old(self).state(
                    k,
                ),
    {
        if self.find(component_id, file).is_none() {
            let e = SourceEntry {
                component_id: component_id.clone(),
                file: file.clone(),
                state: SourceCodeState::Requested,
            };
            let ghost ge = e;
            self.entries.push(e);
            proof {
                assert forall|k: SourceKeyView| #[trigger] self.state(k) == if k == (
                    component_id@,
                    file@,
                ) {
                    Some(SourceCodeState::Requested)
                } else {
                    old(self).state(k)
                } by {
                    lemma_state_push(old(self).entries@, ge, k);
                }
            }
        }
    }

    /// Marks every file that the frames of a backtrace refer to as wanted,
    /// leaving the files the cache already holds as they are.
    pub fn request_files_of(&mut self, backtrace: &BacktraceResponse)
        ensures
            forall|k: SourceKeyView|
                old(self).state(k) is Some ==> #[trigger] final(self).state(k) == old(self).state(k),
            forall|k: SourceKeyView|
                old(self).state(k) is None && #[trigger] final(self).state(k) is Some ==> final(self).state(k) == Some(SourceCodeState::Requested) && k.0 == backtrace.component_id@
                    && refers_to(*backtrace, k.1),
            forall|f: Seq<char>|
                #[trigger] refers_to(*backtrace, f) ==> final(self).state(
                    (backtrace.component_id@, f),
                ) is Some,
    {
        let frames = &backtrace.wasm_backtrace.frames;
        let cid = &backtrace.component_id;
        for i in 0..frames.len()
            invariant
                frames == &backtrace.wasm_backtrace.frames,
                cid == &backtrace.component_id,
                forall|k: SourceKeyView|
                    old(self).state(k) is Some ==> #[trigger] self.state(k) == old(self).state(k),
                forall|k: SourceKeyView|
                    old(self).state(k) is None && #[trigger] self.state(k) is Some ==> self.state(k)
                        == Some(SourceCodeState::Requested) && k.0 == backtrace.component_id@
                        && refers_to(*backtrace, k.1),
                forall|a: int, b: int|
                    0 <= a < i && 0 <= b < frames@[a].symbols@.len() && #[trigger] file_of(
                        frames@[a].symbols@[b],
                    ) is Some ==> self.state(
                        (backtrace.component_id@, file_of(frames@[a].symbols@[b])->Some_0),
                    ) is Some,
        {
            let symbols = &frames[i].symbols;
            for j in 0..symbols.len()
                invariant
                    frames == &backtrace.wasm_backtrace.frames,
                    cid == &backtrace.component_id,
                    i < frames@.len(),
                    symbols == &frames@[i as int].symbols,
                    forall|k: SourceKeyView|
                        old(self).state(k) is Some ==> #[trigger] self.state(k) == old(self).state(
                            k,
                        ),
                    forall|k: SourceKeyView|
                        old(self).state(k) is None && #[trigger] self.state(k) is Some
                            ==> self.state(k) == Some(SourceCodeState::Requested) && k.0
                            == backtrace.component_id@ && refers_to(*backtrace, k.1),
                    forall|a: int, b: int|
                        0 <= a < i && 0 <= b < frames@[a].symbols@.len() && #[trigger] file_of(
                            frames@[a].symbols@[b],
                        ) is Some ==> self.state(
                            (backtrace.component_id@, file_of(frames@[a].symbols@[b])->Some_0),
                        ) is Some,
                    forall|b: int|
                        0 <= b < j && #[trigger] file_of(symbols@[b]) is Some ==> self.state(
                            (backtrace.component_id@, file_of(symbols@[b])->Some_0),
                        ) is Some,
            {
                match &symbols[j].file {
                    Some(file) => {
                        proof {
                            assert(file_of(frames@[i as int].symbols@[j as int]) == Some(file@));
                            assert(refers_to(*backtrace, file@));
                        }
                        self.request(cid, file);
                    },
                    None => {},
                }
            }
        }
    }

    /// The keys of the files marked as wanted, in the order they were first wanted.
    pub closed spec fn requested_keys(&self) -> Seq<SourceKeyView> {
        requested_in(self.entries@)
    }

    /// Marks every wanted file as in flight and returns their keys: the
    /// fetches to issue.
    pub fn take_requested(&mut self) -> (r: Vec<(ComponentId, String)>)
        ensures
            forall|k: SourceKeyView| #[trigger]
                final(self).state(k) == match old(self).state(k) {
                    Some(s) => Some(issued(s)),
                    None => None,
                },
            key_views(r@) == old(self).requested_keys(),
            forall|k: SourceKeyView|
                old(self).state(k) == Some(SourceCodeState::Requested) ==> #[trigger] key_views(
                    r@,
                ).contains(k),
    {
        let mut out: Vec<(ComponentId, String)> = Vec::new();
        let n = self.entries.len();
        let ghost start = self.entries@;
        for i in 0..n
            invariant
                n == self.entries@.len(),
                start.len() == n,
                start == old(self).entries@,
                forall|j: int| 0 <= j < i ==> self.entries@[j] == entry_issued(#[trigger] start[j]),
                forall|j: int| i <= j < n ==> self.entries@[j] == #[trigger] start[j],
                key_views(out@) == requested_in(start.take(i as int)),
        {
            proof {
                assert(start.take(i as int + 1).drop_last() =~= start.take(i as int));
            }
            let is_requested = match self.entries[i].state {
                SourceCodeState::Requested => true,
                _ => false,
            };
            if is_requested {
                self.entries[i].state = SourceCodeState::InFlight;
                let key = (self.entries[i].component_id.clone(), self.entries[i].file.clone());
                let ghost before = out@;
                out.push(key);
                proof {
                    assert(out@.drop_last() =~= before);
                }
            }
            proof {
                assert(self.entries@[i as int] == entry_issued(start[i as int]));
            }
        }
        proof {
            assert(start.take(n as int) =~= start);
            assert(self.entries@ =~= start.map_values(|e: SourceEntry| entry_issued(e)));
            assert forall|k: SourceKeyView| #[trigger]
                self.state(k) == match old(self).state(k) {
                    Some(s) => Some(issued(s)),
                    None => None,
                } by {
                lemma_state_issued(start, k);
            }
            assert forall|k: SourceKeyView|
                old(self).state(k) == Some(SourceCodeState::Requested) implies #[trigger] key_views(
                    out@,
                ).contains(k) by {
                lemma_requested_in(start, k);
            }
        }
        out
    }

    /// Keeps the outcome of a fetch: the rendered lines, numbered from 1, or
    /// the failure.
    pub fn record(&mut self, component_id: &ComponentId, file: &String, lines: Option<Vec<String>>)
        ensures
            match lines {
                None => final(self).state((component_id@, file@)) == Some(
                    SourceCodeState::NotFoundOrErr,
                ),
                Some(ls) => match final(self).state((component_id@, file@)) {
                    Some(SourceCodeState::Found(found)) => found@.len() == ls@.len() && forall|
                        i: int,
                    | 0 <= i < found@.len() ==> #[trigger] found@[i] == (ls@[i], (i + 1) as usize),
                    _ => false,
                },
            },
            forall|k: SourceKeyView|
                k != (component_id@, file@) ==> #[trigger] final(self).state(k) == old(self).state(
                    k,
                ),
    {
        let state = match lines {
            None => SourceCodeState::NotFoundOrErr,
            Some(ls) => SourceCodeState::Found(number_lines(ls)),
        };
        let e = SourceEntry { component_id: component_id.clone(), file: file.clone(), state };
        let ghost ge = e;
        match self.find(component_id, file) {
            Some(i) => {
                self.entries.set(i, e);
                proof {
                    assert forall|k: SourceKeyView| #[trigger] self.state(k) == if k == (
                        component_id@,
                        file@,
                    ) {
                        Some(ge.state)
                    } else {
                        old(self).state(k)
                    } by {
                        lemma_state_update(old(self).entries@, i as int, ge, k);
                    }
                }
            },
            None => {
                self.entries.push(e);
                proof {
                    assert forall|k: SourceKeyView| #[trigger] self.state(k) == if k == (
                        component_id@,
                        file@,
                    ) {
                        Some(ge.state)
                    } else {
                        old(self).state(k)
                    } by {
                        lemma_state_push(old(self).entries@, ge, k);
                    }
                }
            },
        }
    }

    /// What the cache holds for a file.
    pub fn get(&self, component_id: &ComponentId, file: &String) -> (r: Option<&SourceCodeState>)
        ensures
            match r {
                None => self.state((component_id@, file@)) is None,
                Some(s) => self.state((component_id@, file@)) == Some(*s),
            },
    {
        match self.find(component_id, file) {
            None => None,
            Some(i) => Some(&self.entries[i].state),
        }
    }
}

} // verus!
