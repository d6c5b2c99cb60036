use crate::color::{
    color_of_hash, generate_color_from_hash, hash_i32_into, hash_str_into, i32_hash_writes,
    str_hash_writes, string_hash,
};
use std::hash::DefaultHasher;
use std::hash::Hasher;
use vstd::prelude::*;
use vstd::std_specs::hash::DefaultHasherAdditionalSpecFns;
use vstd::string::*;
use crate::text::{find_char, index_of, text_eq};

verus! {

/// Separator between the levels of a hierarchical execution id.
pub const EXECUTION_ID_INFIX: char = '.';

/// Index of the last separator in `s`, or -1 when there is none.
pub open spec fn last_infix(s: Seq<char>) -> int
    decreases s.len(),
{
    if s.len() == 0 {
        -1
    } else if s.last() == EXECUTION_ID_INFIX {
        s.len() - 1
    } else {
        last_infix(s.drop_last())
    }
}

/// The id of the parent execution: everything before the last separator.
pub open spec fn parent_of(s: Seq<char>) -> Option<Seq<char>> {
    if last_infix(s) < 0 {
        None
    } else {
        Some(s.subrange(0, last_infix(s)))
    }
}

/// The last level of an id: everything after the last separator.
pub open spec fn last_segment(s: Seq<char>) -> Seq<char> {
    s.subrange(last_infix(s) + 1, s.len() as int)
}

/// The levels of an id from the root down, each as (segment, cumulative id).
pub open spec fn hierarchy(s: Seq<char>) -> Seq<(Seq<char>, Seq<char>)>
    decreases s.len(),
{
    match parent_of(s) {
        None => seq![(s, s)],
        Some(p) => {
            if p.len() < s.len() {
                hierarchy(p).push((last_segment(s), s))
            } else {
                seq![]
            }
        },
    }
}

pub proof fn lemma_last_infix_bounds(s: Seq<char>)
    ensures
        -1 <= last_infix(s) < s.len(),
        last_infix(s) >= 0 ==> s[last_infix(s)] == EXECUTION_ID_INFIX,
        forall|j: int| last_infix(s) < j < s.len() ==> s[j] != EXECUTION_ID_INFIX,
    decreases s.len(),
{
    if s.len() > 0 && s.last() != EXECUTION_ID_INFIX {
        lemma_last_infix_bounds(s.drop_last());
        assert forall|j: int| last_infix(s) < j < s.len() implies s[j] != EXECUTION_ID_INFIX by {
            if j < s.len() - 1 {
                assert(s[j] == s.drop_last()[j]);
            }
        }
    }
}

proof fn lemma_last_infix_is(s: Seq<char>, k: int)
    requires
        -1 <= k < s.len(),
        k >= 0 ==> s[k] == EXECUTION_ID_INFIX,
        forall|j: int| k < j < s.len() ==> s[j] != EXECUTION_ID_INFIX,
    ensures
        last_infix(s) == k,
    decreases s.len(),
{
    if s.len() > 0 && s.last() != EXECUTION_ID_INFIX {
        lemma_last_infix_is(s.drop_last(), k);
    }
}

/// Position of the last separator in `s`, if any.
fn find_last_infix(s: &str) -> (r: Option<usize>)
    ensures
        match r {
            None => last_infix(s@) == -1,
            Some(i) => last_infix(s@) == i as int,
        },
{
    let mut i = s.unicode_len();
    while i > 0
        invariant
            i <= s@.len(),
            forall|j: int| i <= j < s@.len() ==> s@[j] != EXECUTION_ID_INFIX,
        decreases i,
    {
        if s.get_char(i - 1) == EXECUTION_ID_INFIX {
            proof {
                lemma_last_infix_is(s@, i - 1);
            }
            return Some(i - 1);
        }
        i = i - 1;
    }
    proof {
        lemma_last_infix_is(s@, -1);
    }
    None
}

/// Identifier of one execution; children carry their parent's id, a separator
/// and a suffix.
#[derive(Debug, Hash)]
pub struct ExecutionId {
    pub id: String,
}

impl View for ExecutionId {
    type V = Seq<char>;

    open spec fn view(&self) -> Seq<char> {
        self.id@
    }
}

impl PartialEq for ExecutionId {
    fn eq(&self, other: &ExecutionId) -> (r: bool) {
        self.id == other.id
    }
}

impl vstd::std_specs::cmp::PartialEqSpecImpl for ExecutionId {
    open spec fn obeys_eq_spec() -> bool {
        true
    }

    open spec fn eq_spec(&self, other: &ExecutionId) -> bool {
        self.id@ == other.id@
    }
}

impl Eq for ExecutionId {

}

impl Clone for ExecutionId {
    fn clone(&self) -> (r: Self)
        ensures
            r == *self,
    {
        ExecutionId { id: self.id.clone() }
    }
}

/// A character of the Crockford base-32 alphabet that ULIDs are written in.
pub open spec fn crockford_char(c: char) -> bool {
    ('0' <= c && c <= '9') || ('A' <= c && c <= 'Z' && c != 'I' && c != 'L' && c != 'O' && c
        != 'U')
}

/// Relies on `ulid::Ulid::new` and its `Display`: a fresh ULID, written as 26
/// characters of the Crockford base-32 alphabet.
#[verifier::external_body]
fn new_ulid_text() -> (r: String)
    ensures
        r@.len() == 26,
        forall|i: int| 0 <= i < r@.len() ==> crockford_char(#[trigger] r@[i]),
{
    ulid::Ulid::new().to_string()
}

impl ExecutionId {
    /// A fresh top-level execution id: `E_` followed by a new ULID.
    pub fn generate() -> (r: ExecutionId)
        ensures
            r@.len() == 28,
            r@.take(2) == "E_"@,
            forall|i: int| 2 <= i < 28 ==> crockford_char(#[trigger] r@[i]),
            parent_of(r@) is None,
    {
        let text = new_ulid_text();
        let mut id = String::new();
        id.append("E_");
        id.append(text.as_str());
        proof {
            reveal_strlit("E_");
            assert(id@.take(2) =~= "E_"@);
            assert forall|i: int| 2 <= i < 28 implies crockford_char(#[trigger] id@[i]) by {
                assert(id@[i] == text@[i - 2]);
            }
            assert forall|j: int| 0 <= j < id@.len() implies id@[j] != EXECUTION_ID_INFIX by {
                if j >= 2 {
                    assert(crockford_char(id@[j]));
                }
            }
            lemma_last_infix_is(id@, -1);
        }
        ExecutionId { id }
    }

    pub fn new(id: String) -> (r: ExecutionId)
        ensures
            r@ == id@,
    {
        ExecutionId { id }
    }

    /// The id of the parent execution, or `None` for a top-level execution.
    pub fn parent_id(&self) -> (r: Option<ExecutionId>)
        ensures
            match r {
                None => parent_of(self@) is None,
                Some(p) => parent_of(self@) == Some(p@),
            },
    {
        match find_last_infix(self.id.as_str()) {
            None => None,
            Some(i) => {
                proof {
                    lemma_last_infix_bounds(self@);
                }
                let left = self.id.as_str().substring_char(0, i);
                Some(ExecutionId { id: left.to_string() })
            },
        }
    }

    /// The last level of this id.
    pub fn last_segment(&self) -> (r: String)
        ensures
            r@ == last_segment(self@),
    {
        proof {
            lemma_last_infix_bounds(self@);
        }
        let len = self.id.as_str().unicode_len();
        let from = match find_last_infix(self.id.as_str()) {
            None => 0,
            Some(i) => i + 1,
        };
        self.id.as_str().substring_char(from, len).to_string()
    }

    /// The levels of this id from the root down: each level's own segment
    /// together with the id of the execution at that level.
    pub fn as_hierarchy(&self) -> (r: Vec<(String, ExecutionId)>)
        ensures
            r@.len() == hierarchy(self@).len(),
            forall|i: int|
                0 <= i < r@.len() ==> (#[trigger] r@[i]).0@ == hierarchy(self@)[i].0 && r@[i].1@
                    == hierarchy(self@)[i].1,
        decreases self@.len(),
    {
        match self.parent_id() {
            None => {
                let r = vec![(self.id.clone(), self.clone())];
                r
            },
            Some(parent) => {
                proof {
                    lemma_last_infix_bounds(self@);
                }
                let mut r = parent.as_hierarchy();
                r.push((self.last_segment(), self.clone()));
                r
            },
        }
    }

    /// A colour that tells this execution apart from others.
    pub fn color(&self) -> (r: String)
        ensures
            r@ == color_of_hash(string_hash(self@)),
    {
        let mut hasher = DefaultHasher::new();
        hash_str_into(self.id.as_str(), &mut hasher);
        let hash = hasher.finish();
        generate_color_from_hash(hash)
    }

    pub fn to_string(&self) -> (r: String)
        ensures
            r@ == self@,
    {
        self.id.clone()
    }
}


/// How a join set was named by the workflow.
#[derive(Clone, Copy, Debug, PartialEq, Eq, Hash, Structural)]
pub enum JoinSetKind {
    OneOff,
    Named,
    Generated,
}

impl JoinSetKind {
    /// The wire code of the kind, the value that is hashed for colours.
    pub open spec fn code_spec(self) -> i32 {
        match self {
            JoinSetKind::OneOff => 0,
            JoinSetKind::Named => 1,
            JoinSetKind::Generated => 2,
        }
    }

    pub fn code(self) -> (r: i32)
        ensures
            r == self.code_spec(),
    {
        match self {
            JoinSetKind::OneOff => 0,
            JoinSetKind::Named => 1,
            JoinSetKind::Generated => 2,
        }
    }
}

/// Identifies a join set within one execution.
#[derive(Debug, Hash)]
pub struct JoinSetId {
    pub kind: JoinSetKind,
    pub name: String,
}

impl View for JoinSetId {
    type V = (JoinSetKind, Seq<char>);

    open spec fn view(&self) -> (JoinSetKind, Seq<char>) {
        (self.kind, self.name@)
    }
}

impl PartialEq for JoinSetId {
    fn eq(&self, other: &JoinSetId) -> (r: bool) {
        self.kind == other.kind && self.name == other.name
    }
}

impl vstd::std_specs::cmp::PartialEqSpecImpl for JoinSetId {
    open spec fn obeys_eq_spec() -> bool {
        true
    }

    open spec fn eq_spec(&self, other: &JoinSetId) -> bool {
        self@ == other@
    }
}

impl Eq for JoinSetId {

}

impl Clone for JoinSetId {
    fn clone(&self) -> (r: Self)
        ensures
            r == *self,
    {
        JoinSetId { kind: self.kind, name: self.name.clone() }
    }
}

/// The hash that a fresh `DefaultHasher` gives for a join set's kind code and name.
pub open spec fn join_set_hash(kind: JoinSetKind, name: Seq<char>) -> u64 {
    DefaultHasher::spec_finish(
        Seq::<Seq<u8>>::empty() + i32_hash_writes(kind.code_spec()) + str_hash_writes(name),
    )
}

/// The short code of a join set kind in the textual form of an id.
pub open spec fn kind_letter(kind: JoinSetKind) -> Seq<char> {
    match kind {
        JoinSetKind::OneOff => "o"@,
        JoinSetKind::Named => "n"@,
        JoinSetKind::Generated => "g"@,
    }
}

impl JoinSetId {
    /// A colour that tells this join set apart from others.
    pub fn color(&self) -> (r: String)
        ensures
            r@ == color_of_hash(join_set_hash(self.kind, self.name@)),
    {
        let mut hasher = DefaultHasher::new();
        hash_i32_into(self.kind.code(), &mut hasher);
        hash_str_into(self.name.as_str(), &mut hasher);
        let hash = hasher.finish();
        generate_color_from_hash(hash)
    }

    /// The textual form `k:name`, where `k` is `o`, `n` or `g`.
    pub fn to_string(&self) -> (r: String)
        ensures
            r@ == kind_letter(self.kind) + ":"@ + self.name@,
    {
        let mut out = String::new();
        match self.kind {
            JoinSetKind::OneOff => out.append("o"),
            JoinSetKind::Named => out.append("n"),
            JoinSetKind::Generated => out.append("g"),
        }
        out.append(":");
        out.append(self.name.as_str());
        out
    }
}

/// Identifies a delay requested by an execution.
#[derive(Debug, Hash)]
pub struct DelayId {
    pub id: String,
}

impl View for DelayId {
    type V = Seq<char>;

    open spec fn view(&self) -> Seq<char> {
        self.id@
    }
}

impl PartialEq for DelayId {
    fn eq(&self, other: &DelayId) -> (r: bool) {
        self.id == other.id
    }
}

impl vstd::std_specs::cmp::PartialEqSpecImpl for DelayId {
    open spec fn obeys_eq_spec() -> bool {
        true
    }

    open spec fn eq_spec(&self, other: &DelayId) -> bool {
        self.id@ == other.id@
    }
}

impl Eq for DelayId {

}

impl Clone for DelayId {
    fn clone(&self) -> (r: Self)
        ensures
            r == *self,
    {
        DelayId { id: self.id.clone() }
    }
}

impl DelayId {
    /// A colour that tells this delay apart from others.
    pub fn color(&self) -> (r: String)
        ensures
            r@ == color_of_hash(string_hash(self@)),
    {
        let mut hasher = DefaultHasher::new();
        hash_str_into(self.id.as_str(), &mut hasher);
        let hash = hasher.finish();
        generate_color_from_hash(hash)
    }

    pub fn to_string(&self) -> (r: String)
        ensures
            r@ == self@,
    {
        self.id.clone()
    }
}

/// The kind of a deployed component.
#[derive(Clone, Copy, Debug, PartialEq, Eq, Hash, Structural)]
pub enum ComponentType {
    Unspecified,
    Workflow,
    ActivityWasm,
    WebhookEndpoint,
    ActivityStub,
    ActivityExternal,
}

/// The textual name of a component type.
pub open spec fn component_type_name(t: ComponentType) -> Seq<char> {
    match t {
        ComponentType::Unspecified => "unspecified"@,
        ComponentType::Workflow => "workflow"@,
        ComponentType::ActivityWasm => "activity_wasm"@,
        ComponentType::WebhookEndpoint => "webhook_endpoint"@,
        ComponentType::ActivityStub => "activity_stub"@,
        ComponentType::ActivityExternal => "activity_external"@,
    }
}

/// The component type that a name stands for, if any.
pub open spec fn type_named(s: Seq<char>) -> Option<ComponentType> {
    if s == "unspecified"@ {
        Some(ComponentType::Unspecified)
    } else if s == "workflow"@ {
        Some(ComponentType::Workflow)
    } else if s == "activity_wasm"@ {
        Some(ComponentType::ActivityWasm)
    } else if s == "webhook_endpoint"@ {
        Some(ComponentType::WebhookEndpoint)
    } else if s == "activity_stub"@ {
        Some(ComponentType::ActivityStub)
    } else if s == "activity_external"@ {
        Some(ComponentType::ActivityExternal)
    } else {
        None
    }
}

impl ComponentType {
    /// The textual name of this type.
    pub fn as_str(&self) -> (r: &'static str)
        ensures
            r@ == component_type_name(*self),
    {
        match self {
            ComponentType::Unspecified => "unspecified",
            ComponentType::Workflow => "workflow",
            ComponentType::ActivityWasm => "activity_wasm",
            ComponentType::WebhookEndpoint => "webhook_endpoint",
            ComponentType::ActivityStub => "activity_stub",
            ComponentType::ActivityExternal => "activity_external",
        }
    }

    pub fn to_string(&self) -> (r: String)
        ensures
            r@ == component_type_name(*self),
    {
        self.as_str().to_string()
    }

    /// The type that a name stands for; an unknown name is an error that says so.
    pub fn from_str(s: &str) -> (r: Result<ComponentType, String>)
        ensures
            match r {
                Ok(t) => type_named(s@) == Some(t),
                Err(msg) => type_named(s@) is None && msg@ == "invalid ComponentType: "@ + s@,
            },
    {
        if text_eq(s, "unspecified") {
            Ok(ComponentType::Unspecified)
        } else if text_eq(s, "workflow") {
            Ok(ComponentType::Workflow)
        } else if text_eq(s, "activity_wasm") {
            Ok(ComponentType::ActivityWasm)
        } else if text_eq(s, "webhook_endpoint") {
            Ok(ComponentType::WebhookEndpoint)
        } else if text_eq(s, "activity_stub") {
            Ok(ComponentType::ActivityStub)
        } else if text_eq(s, "activity_external") {
            Ok(ComponentType::ActivityExternal)
        } else {
            let mut msg = String::new();
            msg.append("invalid ComponentType: ");
            msg.append(s);
            Err(msg)
        }
    }
}

/// Identifies a deployed component.
#[derive(Debug, Hash)]
pub struct ComponentId {
    pub component_type: ComponentType,
    pub name: String,
    pub digest: String,
}

impl View for ComponentId {
    type V = (ComponentType, Seq<char>, Seq<char>);

    open spec fn view(&self) -> (ComponentType, Seq<char>, Seq<char>) {
        (self.component_type, self.name@, self.digest@)
    }
}

impl PartialEq for ComponentId {
    fn eq(&self, other: &ComponentId) -> (r: bool) {
        self.component_type == other.component_type && self.name == other.name && self.digest
            == other.digest
    }
}

impl vstd::std_specs::cmp::PartialEqSpecImpl for ComponentId {
    open spec fn obeys_eq_spec() -> bool {
        true
    }

    open spec fn eq_spec(&self, other: &ComponentId) -> bool {
        self@ == other@
    }
}

impl Eq for ComponentId {

}

impl Clone for ComponentId {
    fn clone(&self) -> (r: Self)
        ensures
            r == *self,
    {
        ComponentId {
            component_type: self.component_type,
            name: self.name.clone(),
            digest: self.digest.clone(),
        }
    }
}

/// The textual form of a component id: `type:name:digest`.
pub open spec fn component_id_text(id: (ComponentType, Seq<char>, Seq<char>)) -> Seq<char> {
    component_type_name(id.0) + ":"@ + id.1 + ":"@ + id.2
}

/// What `type:name:digest` denotes: the type before the first `:`, the name
/// up to the next `:`, and the rest as the digest.
pub open spec fn parse_component_id(s: Seq<char>) -> Option<(ComponentType, Seq<char>, Seq<char>)> {
    let a = index_of(s, ':', 0);
    let b = index_of(s, ':', a + 1);
    if a < 0 || b < 0 {
        None
    } else {
        match type_named(s.subrange(0, a)) {
            Some(t) => Some((t, s.subrange(a + 1, b), s.subrange(b + 1, s.len() as int))),
            None => None,
        }
    }
}

impl ComponentId {
    pub fn to_string(&self) -> (r: String)
        ensures
            r@ == component_id_text(self@),
    {
        let mut out = String::new();
        out.append(self.component_type.as_str());
        out.append(":");
        out.append(self.name.as_str());
        out.append(":");
        out.append(self.digest.as_str());
        out
    }

    /// Reads `type:name:digest`; the digest may itself hold `:`.
    pub fn from_str(s: &str) -> (r: Result<ComponentId, ()>)
        ensures
            match r {
                Ok(id) => parse_component_id(s@) == Some(id@),
                Err(_) => parse_component_id(s@) is None,
            },
    {
        let n = s.unicode_len();
        let a = match find_char(s, ':', 0) {
            Some(a) => a,
            None => {
                return Err(());
            },
        };
        let b = match find_char(s, ':', a + 1) {
            Some(b) => b,
            None => {
                return Err(());
            },
        };
        let component_type = match ComponentType::from_str(s.substring_char(0, a)) {
            Ok(t) => t,
            Err(_) => {
                return Err(());
            },
        };
        let name = s.substring_char(a + 1, b).to_string();
        let digest = s.substring_char(b + 1, n).to_string();
        Ok(ComponentId { component_type, name, digest })
    }
}

/// A deployed component as the server describes it.
#[derive(Debug)]
pub struct Component {
    pub component_id: Option<ComponentId>,
    pub name: String,
}

impl Component {
    /// The type of this component; the server always sends the component id.
    pub fn as_type(&self) -> (r: ComponentType)
        requires
            self.component_id is Some,
        ensures
            r == self.component_id->Some_0.component_type,
    {
        match &self.component_id {
            Some(id) => id.component_type,
            None => ComponentType::Unspecified,
        }
    }
}

} // verus!
