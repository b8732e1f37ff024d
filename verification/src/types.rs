//! The data the library works on: identifiers, nodes and edges, mutations, durable write
//! intents, and the errors.

use crate::boundary;
use crate::text::{decimal, decimal_usize, hyphenated_is_one_number};
use crate::time::Timestamp;
use vstd::prelude::*;
use vstd::string::*;

verus! {

/// The identifier of a node, an edge or an event: the 128 bits of a UUID.
#[derive(Clone, Copy, Debug, PartialEq, Eq, Structural, PartialOrd, Ord, Hash)]
pub struct NodeId(pub u128);

impl NodeId {
    /// A fresh random identifier.
    pub fn new() -> (id: NodeId)
        ensures
            boundary::is_random_uuid(id.0 as nat),
            id.0 != 0,
    {
        let n: u128 = boundary::random_uuid();
        NodeId(n)
    }

    /// The identifier that is all zeros.
    pub fn nil() -> (id: NodeId)
        ensures
            id == NodeId(0),
    {
        NodeId(0)
    }

    /// Whether this is the identifier that is all zeros.
    pub fn is_nil(self) -> (r: bool)
        ensures
            r == (self == NodeId(0)),
    {
        self.0 == 0
    }

    /// The hyphenated text of the identifier.
    pub fn to_string(&self) -> (s: String)
        ensures
            s@ == boundary::hyphenated(self.0 as nat),
            forall|n: u128| s@ == #[trigger] boundary::hyphenated(n as nat) ==> n == self.0,
    {
        proof {
            assert forall|n: u128|
                #[trigger] boundary::hyphenated(n as nat) == boundary::hyphenated(self.0 as nat)
                implies n == self.0 by {
                hyphenated_is_one_number(n, self.0);
            }
        }
        boundary::uuid_text(self.0)
    }
}

impl Default for NodeId {
    fn default() -> (id: NodeId)
        ensures
            id == NodeId(0),
    {
        NodeId::nil()
    }
}

impl From<u128> for NodeId {
    fn from(n: u128) -> (id: NodeId) {
        NodeId(n)
    }
}

impl vstd::std_specs::convert::FromSpecImpl<u128> for NodeId {
    open spec fn obeys_from_spec() -> bool {
        true
    }

    open spec fn from_spec(n: u128) -> NodeId {
        NodeId(n)
    }
}

/// The name of a session.
#[derive(Debug, PartialEq, Eq, Hash)]
pub struct SessionId(pub String);

impl View for SessionId {
    type V = Seq<char>;

    open spec fn view(&self) -> Seq<char> {
        self.0@
    }
}

impl Clone for SessionId {
    fn clone(&self) -> (r: SessionId)
        ensures
            r == *self,
    {
        SessionId(self.0.clone())
    }
}

impl SessionId {
    /// The session with this name.
    pub fn new(s: &str) -> (r: SessionId)
        ensures
            r@ == s@,
    {
        SessionId(s.to_owned())
    }

    /// The name.
    pub fn as_str(&self) -> (s: &str)
        ensures
            s@ == self@,
    {
        self.0.as_str()
    }

    /// Whether the two names are the same.
    pub fn same(&self, other: &SessionId) -> (r: bool)
        ensures
            r == (self@ == other@),
    {
        self.0 == other.0
    }
}

impl From<&str> for SessionId {
    fn from(s: &str) -> (r: SessionId)
        ensures
            r@ == s@,
    {
        SessionId::new(s)
    }
}

impl vstd::std_specs::convert::FromSpecImpl<&str> for SessionId {
    open spec fn obeys_from_spec() -> bool {
        false
    }

    open spec fn from_spec(s: &str) -> SessionId {
        arbitrary()
    }
}

impl From<String> for SessionId {
    fn from(s: String) -> (r: SessionId) {
        SessionId(s)
    }
}

impl vstd::std_specs::convert::FromSpecImpl<String> for SessionId {
    open spec fn obeys_from_spec() -> bool {
        true
    }

    open spec fn from_spec(s: String) -> SessionId {
        SessionId(s)
    }
}

/// The name of an agent.
#[derive(Debug, PartialEq, Eq, Hash)]
pub struct AgentId(pub String);

impl View for AgentId {
    type V = Seq<char>;

    open spec fn view(&self) -> Seq<char> {
        self.0@
    }
}

impl Clone for AgentId {
    fn clone(&self) -> (r: AgentId)
        ensures
            r == *self,
    {
        AgentId(self.0.clone())
    }
}

impl AgentId {
    /// The agent with this name.
    pub fn new(s: &str) -> (r: AgentId)
        ensures
            r@ == s@,
    {
        AgentId(s.to_owned())
    }

    /// The name.
    pub fn as_str(&self) -> (s: &str)
        ensures
            s@ == self@,
    {
        self.0.as_str()
    }

    /// Whether the two names are the same.
    pub fn same(&self, other: &AgentId) -> (r: bool)
        ensures
            r == (self@ == other@),
    {
        self.0 == other.0
    }
}

impl From<&str> for AgentId {
    fn from(s: &str) -> (r: AgentId)
        ensures
            r@ == s@,
    {
        AgentId::new(s)
    }
}

impl vstd::std_specs::convert::FromSpecImpl<&str> for AgentId {
    open spec fn obeys_from_spec() -> bool {
        false
    }

    open spec fn from_spec(s: &str) -> AgentId {
        arbitrary()
    }
}

/// What a concept is.
#[derive(Clone, Copy, Debug, PartialEq, Eq, Structural, Hash)]
pub enum ConceptType {
    Entity,
    Logic,
    Constraint,
    Resource,
    Observation,
}

/// What an edge says of its two ends.
#[derive(Clone, Copy, Debug, PartialEq, Eq, Structural, Hash)]
pub enum EdgeType {
    Temporal,
    Derives,
    CoOccurrence,
    Causal,
    Dependency,
    Hierarchical,
    Semantic,
}

impl EdgeType {
    /// Whether the weight of such an edge fades with time.
    pub fn decays(self) -> (r: bool)
        ensures
            r == (self is CoOccurrence || self is Semantic),
    {
        match self {
            EdgeType::CoOccurrence => true,
            EdgeType::Semantic => true,
            _ => false,
        }
    }
}

/// How far a concept has come towards being canonical.
#[derive(Clone, Copy, Debug, PartialEq, Eq, Structural, Hash)]
pub enum CanonizationStatus {
    /// Not on the way at all; stored as `None`.
    Uncanonized,
    Candidate,
    Venerable,
    Canonical,
}

impl Default for CanonizationStatus {
    fn default() -> (r: CanonizationStatus)
        ensures
            r == CanonizationStatus::Uncanonized,
    {
        CanonizationStatus::Uncanonized
    }
}

/// How a derived concept is matched against those that exist.
#[derive(Clone, Copy, Debug, PartialEq, Eq, Structural, Hash)]
pub enum MatchStrategy {
    Canonical,
    Hybrid,
}

impl Default for MatchStrategy {
    fn default() -> (r: MatchStrategy)
        ensures
            r == MatchStrategy::Canonical,
    {
        MatchStrategy::Canonical
    }
}

/// One exchange between an agent and its user.
#[derive(Debug, PartialEq)]
pub struct Interaction {
    pub id: NodeId,
    pub session_id: SessionId,
    pub agent_id: AgentId,
    pub prompt_text: Option<String>,
    pub previous_id: Option<NodeId>,
    pub created_at: Timestamp,
}

/// A concept that an interaction brought up.
#[derive(Debug, PartialEq)]
pub struct Concept {
    pub id: NodeId,
    pub session_id: SessionId,
    pub content: String,
    pub canonical_key: String,
    pub concept_type: ConceptType,
    pub origin_interaction: NodeId,
    pub origin_agent: AgentId,
    pub created_at: Timestamp,
    pub access_count: i32,
    pub last_accessed: Option<Timestamp>,
    pub gc_survived: i32,
    pub canonization_status: CanonizationStatus,
    pub blast_radius: Option<i32>,
    pub last_demotion_time: Option<Timestamp>,
    /// The components of the vector, each as the bits of a single-precision number.
    pub embedding: Option<Vec<u32>>,
    pub chunk_group_id: Option<String>,
}

/// A node of the graph.
#[derive(Debug, PartialEq)]
pub enum Node {
    Interaction(Interaction),
    Concept(Concept),
}

impl Node {
    /// The identifier.
    pub open spec fn id_of(self) -> NodeId {
        match self {
            Node::Interaction(i) => i.id,
            Node::Concept(c) => c.id,
        }
    }

    /// The session.
    pub open spec fn session_of(self) -> SessionId {
        match self {
            Node::Interaction(i) => i.session_id,
            Node::Concept(c) => c.session_id,
        }
    }

    /// The node's identifier.
    pub fn id(&self) -> (r: NodeId)
        ensures
            r == self.id_of(),
    {
        match self {
            Node::Interaction(i) => i.id,
            Node::Concept(c) => c.id,
        }
    }

    /// The session that the node belongs to.
    pub fn session_id(&self) -> (r: &SessionId)
        ensures
            *r == self.session_of(),
    {
        match self {
            Node::Interaction(i) => &i.session_id,
            Node::Concept(c) => &c.session_id,
        }
    }
}

/// An edge of the graph.
#[derive(Debug, PartialEq)]
pub struct Edge {
    pub id: NodeId,
    pub session_id: SessionId,
    pub source: NodeId,
    pub target: NodeId,
    pub edge_type: EdgeType,
    /// The bits of a double-precision number.
    pub weight: u64,
    pub reinforcements: i32,
    pub created_at: Timestamp,
    pub last_reinforced: Timestamp,
}

/// A step of a concept between two canonization statuses.
#[derive(Debug, PartialEq)]
pub struct CanonizationEvent {
    pub id: NodeId,
    pub session_id: SessionId,
    pub node_id: NodeId,
    pub from_status: CanonizationStatus,
    pub to_status: CanonizationStatus,
    pub blast_radius: Option<i32>,
    pub last_demotion_time: Option<Timestamp>,
    pub occurred_at: Timestamp,
}

/// A change to a session's durable state.
#[derive(Debug, PartialEq)]
pub enum Mutation {
    UpsertNode { node: Node },
    UpsertEdge { edge: Edge },
    DeleteNode { id: NodeId },
    DeleteEdge { id: NodeId },
    CanonizationTransition { event: CanonizationEvent },
    /// The goal is JSON text.
    SetRootGoal { session_id: SessionId, goal: Option<String> },
    SetEmbedding { session_id: SessionId, embedding: Option<EmbeddingContract> },
    PutWriteIntent { intent: WriteIntent },
    ConsumeWriteIntent { session_id: SessionId, receipt: String, outcome: WriteIntentOutcome },
}

/// What a durable intent asks for.
#[derive(Debug, PartialEq)]
pub enum WriteIntentPayload {
    Derive { concepts: Vec<(String, ConceptType)>, pairs: Vec<(String, String)> },
    Action {
        action: String,
        produces: Vec<String>,
        modifies: Vec<String>,
        depends_on: Vec<String>,
    },
}

/// A validated write that outlives the process that admitted it.
#[derive(Debug, PartialEq)]
pub struct WriteIntent {
    pub session_id: SessionId,
    pub receipt: String,
    pub agent: AgentId,
    pub interaction: NodeId,
    pub lane_seq: u64,
    pub issued_ms: i64,
    pub payload: WriteIntentPayload,
    pub created_at: Timestamp,
    pub outcome: Option<WriteIntentOutcome>,
}

/// What became of a durable intent.
#[derive(Debug, PartialEq)]
pub struct WriteIntentOutcome {
    pub tag: String,
    pub summary: String,
    pub consumed_at: Timestamp,
}

/// Seconds for which a consumed intent is kept.
pub const WRITE_INTENT_RETENTION_SECS: u64 = 300;

/// Mutations that are applied together, in order.
#[derive(Debug, PartialEq)]
pub struct MutationBatch {
    pub mutations: Vec<Mutation>,
}

impl MutationBatch {
    /// An empty batch.
    pub fn new() -> (b: MutationBatch)
        ensures
            b.mutations@ == Seq::<Mutation>::empty(),
    {
        MutationBatch { mutations: Vec::new() }
    }

    /// Puts a mutation behind those that are there.
    pub fn push(&mut self, m: Mutation)
        ensures
            final(self).mutations@ == old(self).mutations@.push(m),
    {
        self.mutations.push(m);
    }

    /// Whether there is nothing to apply.
    pub fn is_empty(&self) -> (r: bool)
        ensures
            r == (self.mutations@.len() == 0),
    {
        self.mutations.len() == 0
    }

    /// How many mutations there are.
    pub fn len(&self) -> (n: usize)
        ensures
            n == self.mutations@.len(),
    {
        self.mutations.len()
    }
}

/// All that is stored of a session.
#[derive(Debug, PartialEq)]
pub struct GraphSnapshot {
    pub session_id: SessionId,
    /// JSON text.
    pub root_goal: Option<String>,
    pub created_at: Option<Timestamp>,
    pub closed_at: Option<Timestamp>,
    pub interactions: Vec<Interaction>,
    pub concepts: Vec<Concept>,
    pub edges: Vec<Edge>,
    pub synonyms: Vec<Synonym>,
    pub reservations: Vec<Reservation>,
    pub canonization_events: Vec<CanonizationEvent>,
    pub embedding: Option<EmbeddingContract>,
    pub write_intents: Vec<WriteIntent>,
}

/// Which embedder wrote a session's vectors, and how wide they are.
#[derive(Debug, PartialEq, Eq)]
pub struct EmbeddingContract {
    pub kind: String,
    pub model: Option<String>,
    pub dim: usize,
}

/// An embedding contract as values.
pub struct ContractModel {
    pub kind: Seq<char>,
    pub model: Option<Seq<char>>,
    pub dim: nat,
}

/// The view of an optional string.
pub open spec fn opt_text(s: Option<String>) -> Option<Seq<char>> {
    match s {
        Some(t) => Some(t@),
        None => None,
    }
}

impl View for EmbeddingContract {
    type V = ContractModel;

    open spec fn view(&self) -> ContractModel {
        ContractModel { kind: self.kind@, model: opt_text(self.model), dim: self.dim as nat }
    }
}

impl Clone for EmbeddingContract {
    fn clone(&self) -> (r: EmbeddingContract)
        ensures
            r@ == self@,
            r.dim == self.dim,
    {
        EmbeddingContract {
            kind: self.kind.clone(),
            model: clone_opt(&self.model),
            dim: self.dim,
        }
    }
}

/// A copy of an optional string.
pub fn clone_opt(s: &Option<String>) -> (r: Option<String>)
    ensures
        opt_text(r) == opt_text(*s),
{
    match s {
        Some(t) => Some(t.clone()),
        None => None,
    }
}

/// Whether two optional strings are the same.
pub fn same_opt(a: &Option<String>, b: &Option<String>) -> (r: bool)
    ensures
        r == (opt_text(*a) == opt_text(*b)),
{
    match (a, b) {
        (Some(x), Some(y)) => *x == *y,
        (None, None) => true,
        _ => false,
    }
}

/// The model's name as a message shows it.
pub open spec fn shown_model(c: ContractModel) -> Seq<char> {
    match c.model {
        Some(m) => m,
        None => "(default)"@,
    }
}

/// The message that refuses to mix vectors of two contracts.
pub open spec fn incompatible_text(a: ContractModel, b: ContractModel) -> Seq<char> {
    "embedding contract is incompatible: this session's vectors were written by kind="@ + a.kind
        + " model="@ + boundary::quoted(shown_model(a)) + " dim="@ + decimal(a.dim)
        + ", but the live/attached embedder is kind="@ + b.kind + " model="@
        + boundary::quoted(shown_model(b)) + " dim="@ + decimal(b.dim)
        + " — re-embed or start a new session before writing or reading"@
}

impl EmbeddingContract {
    fn model_or_default(&self) -> (s: String)
        ensures
            s@ == shown_model(self@),
    {
        match &self.model {
            Some(m) => m.clone(),
            None => "(default)".to_owned(),
        }
    }

    /// Refuses an embedder whose kind, model or width is not that of this contract.
    pub fn ensure_compatible(&self, other: &EmbeddingContract) -> (r: Result<(), LamboError>)
        ensures
            r is Ok <==> self@ == other@,
            r matches Err(e) ==> e matches LamboError::Config(msg) && msg@ == incompatible_text(
                self@,
                other@,
            ),
    {
        if self.dim != other.dim || self.kind != other.kind || !same_opt(&self.model, &other.model) {
            let ours = self.model_or_default();
            let theirs = other.model_or_default();
            let mut msg: String = String::new();
            msg.append(
                "embedding contract is incompatible: this session's vectors were written by kind=",
            );
            msg.append(self.kind.as_str());
            msg.append(" model=");
            msg.append(boundary::quote(ours.as_str()).as_str());
            msg.append(" dim=");
            msg.append(decimal_usize(self.dim).as_str());
            msg.append(", but the live/attached embedder is kind=");
            msg.append(other.kind.as_str());
            msg.append(" model=");
            msg.append(boundary::quote(theirs.as_str()).as_str());
            msg.append(" dim=");
            msg.append(decimal_usize(other.dim).as_str());
            msg.append(" — re-embed or start a new session before writing or reading");
            proof {
                assert(msg@ =~= incompatible_text(self@, other@));
            }
            return Err(LamboError::Config(msg));
        }
        Ok(())
    }
}

/// A key that stands for another.
#[derive(Debug, PartialEq, Eq)]
pub struct Synonym {
    pub session_id: SessionId,
    pub source_key: String,
    pub canonical_key: String,
}

/// An agent's claim on a node, for a while.
#[derive(Debug, PartialEq, Eq)]
pub struct Reservation {
    pub session_id: SessionId,
    pub node_id: NodeId,
    pub agent_id: AgentId,
    pub expires_at: Timestamp,
}

/// What the background daemon reports.
#[derive(Debug, PartialEq)]
pub enum DaemonEvent {
    Conflict { node_id: NodeId, agents: Vec<AgentId>, detail: String },
    Drift { node_id: NodeId, hops: u32, detail: String },
    Stale { node_id: NodeId, detail: String },
    HighRisk { node_id: NodeId, detail: String },
    Canonized { event: CanonizationEvent },
}

/// What a caller asks recall for.
#[derive(Debug, PartialEq)]
pub struct RecallQuery {
    pub query: String,
    pub top_k: usize,
    pub max_tokens: usize,
    pub traversal_depth: usize,
}

/// Why the store refused.
#[derive(Debug)]
pub enum StoreError {
    SessionNotFound(String),
    NotFound(String),
    Capability(String),
    Invariant(String),
    Backend(String),
    Constraint(String),
    StaleWrite(String),
    Other(String),
}

/// A store error as values.
pub enum StoreErrorModel {
    SessionNotFound(Seq<char>),
    NotFound(Seq<char>),
    Capability(Seq<char>),
    Invariant(Seq<char>),
    Backend(Seq<char>),
    Constraint(Seq<char>),
    StaleWrite(Seq<char>),
    Other(Seq<char>),
}

impl View for StoreError {
    type V = StoreErrorModel;

    open spec fn view(&self) -> StoreErrorModel {
        match *self {
            StoreError::SessionNotFound(s) => StoreErrorModel::SessionNotFound(s@),
            StoreError::NotFound(s) => StoreErrorModel::NotFound(s@),
            StoreError::Capability(s) => StoreErrorModel::Capability(s@),
            StoreError::Invariant(s) => StoreErrorModel::Invariant(s@),
            StoreError::Backend(s) => StoreErrorModel::Backend(s@),
            StoreError::Constraint(s) => StoreErrorModel::Constraint(s@),
            StoreError::StaleWrite(s) => StoreErrorModel::StaleWrite(s@),
            StoreError::Other(s) => StoreErrorModel::Other(s@),
        }
    }
}

/// The message of a store error.
pub open spec fn store_error_text(e: StoreErrorModel) -> Seq<char> {
    match e {
        StoreErrorModel::SessionNotFound(s) => "session not found: "@ + s,
        StoreErrorModel::NotFound(s) => "not found: "@ + s,
        StoreErrorModel::Capability(s) => "capability not supported: "@ + s,
        StoreErrorModel::Invariant(s) => "invariant violated: "@ + s,
        StoreErrorModel::Backend(s) => "backend: "@ + s,
        StoreErrorModel::Constraint(s) => "constraint violated ("@ + s + ")"@,
        StoreErrorModel::StaleWrite(s) => "stale write (fencing token): "@ + s,
        StoreErrorModel::Other(s) => s,
    }
}

impl StoreError {
    /// Whether the same request may succeed later: not where a constraint or the fence refused.
    pub fn is_retryable(&self) -> (r: bool)
        ensures
            r == !(self is Constraint || self is StaleWrite),
    {
        match self {
            StoreError::Constraint(_) => false,
            StoreError::StaleWrite(_) => false,
            _ => true,
        }
    }

    /// The message.
    pub fn to_string(&self) -> (s: String)
        ensures
            s@ == store_error_text(self@),
    {
        match self {
            StoreError::SessionNotFound(m) => joined("session not found: ", m.as_str(), ""),
            StoreError::NotFound(m) => joined("not found: ", m.as_str(), ""),
            StoreError::Capability(m) => joined("capability not supported: ", m.as_str(), ""),
            StoreError::Invariant(m) => joined("invariant violated: ", m.as_str(), ""),
            StoreError::Backend(m) => joined("backend: ", m.as_str(), ""),
            StoreError::Constraint(m) => joined("constraint violated (", m.as_str(), ")"),
            StoreError::StaleWrite(m) => joined("stale write (fencing token): ", m.as_str(), ""),
            StoreError::Other(m) => m.clone(),
        }
    }
}

/// Three pieces of text, one behind the other.
pub fn joined(a: &str, b: &str, c: &str) -> (s: String)
    ensures
        s@ == a@ + b@ + c@,
        c@.len() == 0 ==> s@ == a@ + b@,
        c@ == ""@ ==> s@ == a@ + b@,
{
    let mut s: String = a.to_owned();
    s.append(b);
    s.append(c);
    proof {
        reveal_strlit("");
        if c@.len() == 0 {
            assert(s@ =~= a@ + b@);
        }
    }
    s
}

/// Why a request to the library failed.
#[derive(Debug)]
pub enum LamboError {
    Store(StoreError),
    Embed(String),
    /// The embedder could not be reached or did not answer in time.
    EmbedUnavailable(String),
    Config(String),
    Conflict(String),
    SoftLock(String),
    Other(String),
}

impl From<StoreError> for LamboError {
    fn from(e: StoreError) -> (r: LamboError) {
        LamboError::Store(e)
    }
}

impl vstd::std_specs::convert::FromSpecImpl<StoreError> for LamboError {
    open spec fn obeys_from_spec() -> bool {
        true
    }

    open spec fn from_spec(e: StoreError) -> LamboError {
        LamboError::Store(e)
    }
}

/// The message of an error.
pub open spec fn lambo_error_text(e: LamboError) -> Seq<char> {
    match e {
        LamboError::Store(s) => store_error_text(s@),
        LamboError::Embed(s) => "embed: "@ + s@,
        LamboError::EmbedUnavailable(s) => "embed: "@ + s@,
        LamboError::Config(s) => "config: "@ + s@,
        LamboError::Conflict(s) => "conflict: "@ + s@,
        LamboError::SoftLock(s) => "conflict: "@ + s@,
        LamboError::Other(s) => s@,
    }
}

impl LamboError {
    /// The message.
    pub fn to_string(&self) -> (s: String)
        ensures
            s@ == lambo_error_text(*self),
    {
        match self {
            LamboError::Store(e) => e.to_string(),
            LamboError::Embed(m) => joined("embed: ", m.as_str(), ""),
            LamboError::EmbedUnavailable(m) => joined("embed: ", m.as_str(), ""),
            LamboError::Config(m) => joined("config: ", m.as_str(), ""),
            LamboError::Conflict(m) => joined("conflict: ", m.as_str(), ""),
            LamboError::SoftLock(m) => joined("conflict: ", m.as_str(), ""),
            LamboError::Other(m) => m.clone(),
        }
    }
}

} // verus!
