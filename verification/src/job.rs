//! A write on its way: its payload, the durable intent it leaves, and the account of what it
//! did once it is applied.

use crate::boundary::hyphenated;
use crate::limits::MAX_RECEIPT_IDS;
use crate::receipt::{wire, AppliedSummary, ReceiptId, SummaryModel, WriteKind};
use crate::text::{clone_strings, decimal, decimal_usize, texts};
use crate::time::Timestamp;
use crate::types::{
    AgentId, ConceptType, MatchStrategy, NodeId, SessionId, WriteIntent, WriteIntentOutcome,
    WriteIntentPayload,
};
use vstd::prelude::*;
use vstd::string::*;
use vstd::utf8::encode_utf8;

verus! {

/// What a write asks for.
#[derive(Debug, PartialEq)]
pub enum JobPayload {
    Derive { concepts: Vec<(String, ConceptType)>, pairs: Vec<(String, String)> },
    Action {
        action: String,
        produces: Vec<String>,
        modifies: Vec<String>,
        depends_on: Vec<String>,
    },
}

/// What a write asks for, as values.
pub enum PayloadModel {
    Derive { concepts: Seq<(Seq<char>, ConceptType)>, pairs: Seq<(Seq<char>, Seq<char>)> },
    Action {
        action: Seq<char>,
        produces: Seq<Seq<char>>,
        modifies: Seq<Seq<char>>,
        depends_on: Seq<Seq<char>>,
    },
}

/// The views of a list of concepts.
pub open spec fn concept_texts(v: Seq<(String, ConceptType)>) -> Seq<(Seq<char>, ConceptType)> {
    Seq::new(v.len(), |i: int| (v[i].0@, v[i].1))
}

/// The views of a list of pairs.
pub open spec fn pair_texts(v: Seq<(String, String)>) -> Seq<(Seq<char>, Seq<char>)> {
    Seq::new(v.len(), |i: int| (v[i].0@, v[i].1@))
}

impl View for JobPayload {
    type V = PayloadModel;

    open spec fn view(&self) -> PayloadModel {
        match *self {
            JobPayload::Derive { concepts, pairs } => PayloadModel::Derive {
                concepts: concept_texts(concepts@),
                pairs: pair_texts(pairs@),
            },
            JobPayload::Action { action, produces, modifies, depends_on } => PayloadModel::Action {
                action: action@,
                produces: texts(produces@),
                modifies: texts(modifies@),
                depends_on: texts(depends_on@),
            },
        }
    }
}

impl View for WriteIntentPayload {
    type V = PayloadModel;

    open spec fn view(&self) -> PayloadModel {
        match *self {
            WriteIntentPayload::Derive { concepts, pairs } => PayloadModel::Derive {
                concepts: concept_texts(concepts@),
                pairs: pair_texts(pairs@),
            },
            WriteIntentPayload::Action { action, produces, modifies, depends_on } =>
                PayloadModel::Action {
                action: action@,
                produces: texts(produces@),
                modifies: texts(modifies@),
                depends_on: texts(depends_on@),
            },
        }
    }
}

/// The bytes of a text in UTF-8.
pub open spec fn byte_len(s: Seq<char>) -> nat {
    encode_utf8(s).len()
}

/// The bytes of a list of texts.
pub open spec fn total_bytes(v: Seq<Seq<char>>) -> nat
    decreases v.len(),
{
    if v.len() == 0 {
        0
    } else {
        total_bytes(v.drop_last()) + byte_len(v.last())
    }
}

/// The bytes of the contents of a list of concepts.
pub open spec fn concept_bytes(v: Seq<(Seq<char>, ConceptType)>) -> nat
    decreases v.len(),
{
    if v.len() == 0 {
        0
    } else {
        concept_bytes(v.drop_last()) + byte_len(v.last().0)
    }
}

/// The bytes of a list of pairs.
pub open spec fn pair_bytes(v: Seq<(Seq<char>, Seq<char>)>) -> nat
    decreases v.len(),
{
    if v.len() == 0 {
        0
    } else {
        pair_bytes(v.drop_last()) + byte_len(v.last().0) + byte_len(v.last().1)
    }
}

/// The bytes of all the text that a payload holds.
pub open spec fn payload_bytes(p: PayloadModel) -> nat {
    match p {
        PayloadModel::Derive { concepts, pairs } => concept_bytes(concepts) + pair_bytes(pairs),
        PayloadModel::Action { action, produces, modifies, depends_on } => byte_len(action)
            + total_bytes(produces) + total_bytes(modifies) + total_bytes(depends_on),
    }
}

/// A count, or the largest that a machine word holds.
pub open spec fn capped(n: nat) -> usize {
    if n <= usize::MAX {
        n as usize
    } else {
        usize::MAX
    }
}

/// Which tool a payload came through.
pub open spec fn payload_kind(p: PayloadModel) -> WriteKind {
    match p {
        PayloadModel::Derive { .. } => WriteKind::Derive,
        PayloadModel::Action { .. } => WriteKind::RecordAction,
    }
}

fn bytes_of(s: &String) -> (n: usize)
    ensures
        n == byte_len(s@),
{
    s.as_str().as_bytes().len()
}

/// Bytes counted so far, and those of a list of strings.
fn with_strings(so_far: usize, v: &Vec<String>, Ghost(before): Ghost<nat>) -> (n: usize)
    requires
        so_far == capped(before),
    ensures
        n == capped(before + total_bytes(texts(v@))),
{
    let mut n: usize = so_far;
    let mut i: usize = 0;
    proof {
        assert(texts(v@).take(0) =~= Seq::<Seq<char>>::empty());
    }
    while i < v.len()
        invariant
            i <= v@.len(),
            n == capped(before + total_bytes(texts(v@).take(i as int))),
        decreases v@.len() - i,
    {
        proof {
            assert(texts(v@).take(i + 1).drop_last() =~= texts(v@).take(i as int));
        }
        n = n.saturating_add(bytes_of(&v[i]));
        i += 1;
    }
    proof {
        assert(texts(v@).take(v@.len() as int) =~= texts(v@));
    }
    n
}

/// A copy of a list of concepts.
pub fn clone_concepts(v: &Vec<(String, ConceptType)>) -> (r: Vec<(String, ConceptType)>)
    ensures
        concept_texts(r@) == concept_texts(v@),
{
    let mut r: Vec<(String, ConceptType)> = Vec::new();
    let mut i: usize = 0;
    while i < v.len()
        invariant
            i <= v@.len(),
            r@.len() == i,
            forall|j: int| 0 <= j < i ==> r@[j].0@ == v@[j].0@ && r@[j].1 == v@[j].1,
        decreases v@.len() - i,
    {
        r.push((v[i].0.clone(), v[i].1));
        i += 1;
    }
    proof {
        assert(concept_texts(r@) =~= concept_texts(v@));
    }
    r
}

/// A copy of a list of pairs.
pub fn clone_pairs(v: &Vec<(String, String)>) -> (r: Vec<(String, String)>)
    ensures
        pair_texts(r@) == pair_texts(v@),
{
    let mut r: Vec<(String, String)> = Vec::new();
    let mut i: usize = 0;
    while i < v.len()
        invariant
            i <= v@.len(),
            r@.len() == i,
            forall|j: int| 0 <= j < i ==> r@[j].0@ == v@[j].0@ && r@[j].1@ == v@[j].1@,
        decreases v@.len() - i,
    {
        r.push((v[i].0.clone(), v[i].1.clone()));
        i += 1;
    }
    proof {
        assert(pair_texts(r@) =~= pair_texts(v@));
    }
    r
}

impl JobPayload {
    /// Which tool the write came through.
    pub fn kind(&self) -> (k: WriteKind)
        ensures
            k == payload_kind(self@),
    {
        match self {
            JobPayload::Derive { .. } => WriteKind::Derive,
            JobPayload::Action { .. } => WriteKind::RecordAction,
        }
    }

    /// The same request, as a durable intent holds it.
    pub fn to_intent_payload(&self) -> (p: WriteIntentPayload)
        ensures
            p@ == self@,
    {
        match self {
            JobPayload::Derive { concepts, pairs } => WriteIntentPayload::Derive {
                concepts: clone_concepts(concepts),
                pairs: clone_pairs(pairs),
            },
            JobPayload::Action { action, produces, modifies, depends_on } =>
                WriteIntentPayload::Action {
                action: action.clone(),
                produces: clone_strings(produces),
                modifies: clone_strings(modifies),
                depends_on: clone_strings(depends_on),
            },
        }
    }

    /// The same request, out of a durable intent.
    pub fn from_intent_payload(p: WriteIntentPayload) -> (r: JobPayload)
        ensures
            r@ == p@,
    {
        match p {
            WriteIntentPayload::Derive { concepts, pairs } => JobPayload::Derive {
                concepts,
                pairs,
            },
            WriteIntentPayload::Action { action, produces, modifies, depends_on } =>
                JobPayload::Action { action, produces, modifies, depends_on },
        }
    }

    /// The bytes of all the text in the payload.
    pub fn bytes(&self) -> (n: usize)
        ensures
            n == capped(payload_bytes(self@)),
    {
        match self {
            JobPayload::Derive { concepts, pairs } => {
                let ghost cs = concept_texts(concepts@);
                let ghost ps = pair_texts(pairs@);
                let mut n: usize = 0;
                let mut i: usize = 0;
                proof {
                    assert(cs.take(0) =~= Seq::<(Seq<char>, ConceptType)>::empty());
                    assert(ps.take(0) =~= Seq::<(Seq<char>, Seq<char>)>::empty());
                }
                while i < concepts.len()
                    invariant
                        cs == concept_texts(concepts@),
                        i <= concepts@.len(),
                        n == capped(concept_bytes(cs.take(i as int))),
                    decreases concepts@.len() - i,
                {
                    proof {
                        assert(cs.take(i + 1).drop_last() =~= cs.take(i as int));
                    }
                    n = n.saturating_add(bytes_of(&concepts[i].0));
                    i += 1;
                }
                proof {
                    assert(cs.take(concepts@.len() as int) =~= cs);
                }
                let mut j: usize = 0;
                while j < pairs.len()
                    invariant
                        ps == pair_texts(pairs@),
                        j <= pairs@.len(),
                        n == capped(concept_bytes(cs) + pair_bytes(ps.take(j as int))),
                    decreases pairs@.len() - j,
                {
                    proof {
                        assert(ps.take(j + 1).drop_last() =~= ps.take(j as int));
                    }
                    n = n.saturating_add(bytes_of(&pairs[j].0));
                    n = n.saturating_add(bytes_of(&pairs[j].1));
                    j += 1;
                }
                proof {
                    assert(ps.take(pairs@.len() as int) =~= ps);
                }
                n
            },
            JobPayload::Action { action, produces, modifies, depends_on } => {
                let ghost a = byte_len(action@);
                let ghost p = a + total_bytes(texts(produces@));
                let ghost m = p + total_bytes(texts(modifies@));
                let mut n: usize = bytes_of(action);
                n = with_strings(n, produces, Ghost(a));
                n = with_strings(n, modifies, Ghost(p));
                with_strings(n, depends_on, Ghost(m))
            },
        }
    }
}

/// A payload survives the way into a durable intent and back.
pub proof fn intent_payload_round_trips(job: JobPayload, intent: WriteIntentPayload, back: JobPayload)
    requires
        intent@ == job@,
        back@ == intent@,
    ensures
        back@ == job@,
        payload_bytes(back@) == payload_bytes(job@),
        payload_kind(back@) == payload_kind(job@),
{
}

/// A write in a lane.
#[derive(Debug)]
pub struct Job {
    pub receipt: ReceiptId,
    pub agent: AgentId,
    pub interaction: NodeId,
    pub bytes: usize,
    pub payload: JobPayload,
}

/// A write in a lane, as values.
pub struct JobModel {
    pub receipt: ReceiptId,
    pub agent: Seq<char>,
    pub interaction: NodeId,
    pub bytes: usize,
    pub payload: PayloadModel,
}

impl View for Job {
    type V = JobModel;

    open spec fn view(&self) -> JobModel {
        JobModel {
            receipt: self.receipt,
            agent: self.agent@,
            interaction: self.interaction,
            bytes: self.bytes,
            payload: self.payload@,
        }
    }
}

/// The outcome of an intent, as values.
pub struct OutcomeModel {
    pub tag: Seq<char>,
    pub summary: Seq<char>,
    pub consumed_at: Timestamp,
}

impl View for WriteIntentOutcome {
    type V = OutcomeModel;

    open spec fn view(&self) -> OutcomeModel {
        OutcomeModel {
            tag: self.tag@,
            summary: self.summary@,
            consumed_at: self.consumed_at,
        }
    }
}

/// A durable intent, as values.
pub struct IntentModel {
    pub session: Seq<char>,
    pub receipt: Seq<char>,
    pub agent: Seq<char>,
    pub interaction: NodeId,
    pub lane_seq: u64,
    pub issued_ms: i64,
    pub payload: PayloadModel,
    pub created_at: Timestamp,
    pub outcome: Option<OutcomeModel>,
}

/// The view of an optional outcome.
pub open spec fn opt_outcome(o: Option<WriteIntentOutcome>) -> Option<OutcomeModel> {
    match o {
        Some(x) => Some(x@),
        None => None,
    }
}

impl View for WriteIntent {
    type V = IntentModel;

    open spec fn view(&self) -> IntentModel {
        IntentModel {
            session: self.session_id@,
            receipt: self.receipt@,
            agent: self.agent@,
            interaction: self.interaction,
            lane_seq: self.lane_seq,
            issued_ms: self.issued_ms,
            payload: self.payload@,
            created_at: self.created_at,
            outcome: opt_outcome(self.outcome),
        }
    }
}

/// The intent that an admitted write leaves behind: not consumed, and numbered as its receipt.
pub open spec fn intent_for(session: Seq<char>, job: JobModel, now: Timestamp) -> IntentModel {
    IntentModel {
        session,
        receipt: wire(job.receipt),
        agent: job.agent,
        interaction: job.interaction,
        lane_seq: job.receipt.seq,
        issued_ms: job.receipt.issued_ms,
        payload: job.payload,
        created_at: now,
        outcome: None,
    }
}

impl Job {
    /// The intent that this write leaves behind when it is admitted.
    pub fn intent(&self, session: &SessionId, now: &Timestamp) -> (i: WriteIntent)
        ensures
            i@ == intent_for(session@, self@, *now),
    {
        WriteIntent {
            session_id: session.clone(),
            receipt: self.receipt.to_string(),
            agent: self.agent.clone(),
            interaction: self.interaction,
            lane_seq: self.receipt.seq,
            issued_ms: self.receipt.issued_ms,
            payload: self.payload.to_intent_payload(),
            created_at: *now,
            outcome: None,
        }
    }
}

/// What the graph did for a derive.
#[derive(Debug)]
pub struct DeriveOutcome {
    pub created: Vec<NodeId>,
    pub matched: Vec<NodeId>,
    pub semantic_merged: usize,
    pub reinforced: usize,
    pub embedded: usize,
}

/// What the graph did for an action.
#[derive(Debug)]
pub struct ActionOutcome {
    pub action_node: NodeId,
    pub created: Vec<NodeId>,
    pub edges: usize,
}

/// What the graph did for a write.
#[derive(Debug)]
pub enum WriteOutcome {
    Derive(DeriveOutcome),
    Action(ActionOutcome),
}

/// How a write marks its intent as consumed when it is applied.
#[derive(Clone, Copy, Debug)]
pub struct ConsumeStamp {
    pub tag: &'static str,
    pub at: Timestamp,
}

/// What is told to the caller of an applied write, what is indexed anew, and what is recorded
/// on the write's intent.
#[derive(Debug)]
pub struct AppliedWrite {
    pub summary: AppliedSummary,
    pub touched: Vec<NodeId>,
    pub consumed: Option<(String, WriteIntentOutcome)>,
}

/// The sentence that sums up a derive.
pub open spec fn derive_sentence_text(
    strategy: MatchStrategy,
    submitted: nat,
    created: nat,
    embedded: nat,
    matched: nat,
) -> Seq<char> {
    match strategy {
        MatchStrategy::Hybrid => "derived "@ + decimal(submitted) + " concept(s): "@ + decimal(
            created,
        ) + " created ("@ + decimal(embedded) + " embedded), "@ + decimal(matched)
            + " matched existing"@,
        MatchStrategy::Canonical => "derived "@ + decimal(submitted) + " concept(s): "@ + decimal(
            created,
        ) + " created, "@ + decimal(matched) + " matched existing"@,
    }
}

/// The sentence that sums up an action.
pub open spec fn action_sentence_text(created: nat, edges: nat) -> Seq<char> {
    "recorded action: "@ + decimal(created) + " concept(s) created, "@ + decimal(edges)
        + " edge(s)"@
}

/// The sentence that sums up a derive.
pub fn derive_sentence(strategy: MatchStrategy, submitted: usize, outcome: &DeriveOutcome) -> (s:
    String)
    ensures
        s@ == derive_sentence_text(
            strategy,
            submitted as nat,
            outcome.created@.len(),
            outcome.embedded as nat,
            outcome.matched@.len(),
        ),
{
    let mut s: String = "derived ".to_owned();
    s.append(decimal_usize(submitted).as_str());
    s.append(" concept(s): ");
    s.append(decimal_usize(outcome.created.len()).as_str());
    match strategy {
        MatchStrategy::Hybrid => {
            s.append(" created (");
            s.append(decimal_usize(outcome.embedded).as_str());
            s.append(" embedded), ");
        },
        MatchStrategy::Canonical => {
            s.append(" created, ");
        },
    }
    s.append(decimal_usize(outcome.matched.len()).as_str());
    s.append(" matched existing");
    s
}

/// The sentence that sums up an action.
pub fn action_sentence(outcome: &ActionOutcome) -> (s: String)
    ensures
        s@ == action_sentence_text(outcome.created@.len(), outcome.edges as nat),
{
    let mut s: String = "recorded action: ".to_owned();
    s.append(decimal_usize(outcome.created.len()).as_str());
    s.append(" concept(s) created, ");
    s.append(decimal_usize(outcome.edges).as_str());
    s.append(" edge(s)");
    s
}

/// The texts of the first identifiers of a list, as many as a receipt lists.
pub open spec fn listed_ids(ids: Seq<NodeId>) -> Seq<Seq<char>> {
    Seq::new(
        if ids.len() <= MAX_RECEIPT_IDS {
            ids.len()
        } else {
            MAX_RECEIPT_IDS as nat
        },
        |i: int| hyphenated(ids[i].0 as nat),
    )
}

/// The texts of the first identifiers of a list, as many as a receipt lists.
pub fn truncate_ids(ids: &Vec<NodeId>) -> (r: Vec<String>)
    ensures
        texts(r@) == listed_ids(ids@),
{
    let mut r: Vec<String> = Vec::new();
    let mut i: usize = 0;
    while i < ids.len() && i < MAX_RECEIPT_IDS
        invariant
            i <= ids@.len(),
            i <= MAX_RECEIPT_IDS,
            r@.len() == i,
            forall|j: int| 0 <= j < i ==> (#[trigger] r@[j])@ == hyphenated(ids@[j].0 as nat),
        decreases ids@.len() - i,
    {
        r.push(ids[i].to_string());
        i += 1;
    }
    proof {
        assert(texts(r@) =~= listed_ids(ids@));
    }
    r
}

/// The concepts that a payload submits.
pub open spec fn submitted(p: PayloadModel) -> nat {
    match p {
        PayloadModel::Derive { concepts, .. } => concepts.len(),
        PayloadModel::Action { .. } => 0,
    }
}

/// The sentence that sums up a write.
pub open spec fn outcome_sentence(
    p: PayloadModel,
    strategy: MatchStrategy,
    outcome: WriteOutcome,
) -> Seq<char> {
    match outcome {
        WriteOutcome::Derive(o) => derive_sentence_text(
            strategy,
            submitted(p),
            o.created@.len(),
            o.embedded as nat,
            o.matched@.len(),
        ),
        WriteOutcome::Action(o) => action_sentence_text(o.created@.len(), o.edges as nat),
    }
}

/// What is told to the caller of an applied write.
pub open spec fn outcome_summary(
    p: PayloadModel,
    strategy: MatchStrategy,
    outcome: WriteOutcome,
) -> SummaryModel {
    match outcome {
        WriteOutcome::Derive(o) => SummaryModel {
            kind: WriteKind::Derive,
            summary: outcome_sentence(p, strategy, outcome),
            created: listed_ids(o.created@),
            matched: listed_ids(o.matched@),
            created_count: o.created@.len() as usize,
            matched_count: o.matched@.len() as usize,
            semantic_merged: Some(o.semantic_merged),
            reinforced: Some(o.reinforced),
            edges: None,
            embedded: if strategy is Hybrid {
                Some(o.embedded)
            } else {
                None
            },
        },
        WriteOutcome::Action(o) => SummaryModel {
            kind: WriteKind::RecordAction,
            summary: outcome_sentence(p, strategy, outcome),
            created: listed_ids(o.created@),
            matched: Seq::empty(),
            created_count: o.created@.len() as usize,
            matched_count: 0,
            semantic_merged: None,
            reinforced: None,
            edges: Some(o.edges),
            embedded: None,
        },
    }
}

/// The nodes that are indexed anew after a write.
pub open spec fn outcome_touched(outcome: WriteOutcome) -> Seq<NodeId> {
    match outcome {
        WriteOutcome::Derive(o) => o.created@ + o.matched@,
        WriteOutcome::Action(o) => o.created@.push(o.action_node),
    }
}

/// The outcome is one that the payload's own tool gives.
pub open spec fn answers(p: PayloadModel, outcome: WriteOutcome) -> bool {
    (p is Derive) == (outcome is Derive)
}

fn copy_ids(ids: &Vec<NodeId>) -> (r: Vec<NodeId>)
    ensures
        r@ == ids@,
{
    let mut r: Vec<NodeId> = Vec::new();
    let mut i: usize = 0;
    while i < ids.len()
        invariant
            i <= ids@.len(),
            r@ == ids@.take(i as int),
        decreases ids@.len() - i,
    {
        r.push(ids[i]);
        i += 1;
    }
    proof {
        assert(ids@.take(ids@.len() as int) =~= ids@);
    }
    r
}

impl Job {
    /// The account of this write, once the graph has applied it: what its caller is told, what
    /// is indexed anew, and, where it is to be stamped, what its intent records. The intent
    /// records the sentence that the caller is told.
    pub fn applied(
        &self,
        strategy: MatchStrategy,
        outcome: &WriteOutcome,
        consume: Option<ConsumeStamp>,
    ) -> (r: AppliedWrite)
        requires
            answers(self.payload@, *outcome),
        ensures
            r.summary@ == outcome_summary(self.payload@, strategy, *outcome),
            r.touched@ == outcome_touched(*outcome),
            r.consumed is Some <==> consume is Some,
            r.consumed matches Some(c) ==> c.0@ == wire(self.receipt) && c.1@ == (OutcomeModel {
                tag: consume->0.tag@,
                summary: outcome_sentence(self.payload@, strategy, *outcome),
                consumed_at: consume->0.at,
            }),
    {
        let submitted: usize = match &self.payload {
            JobPayload::Derive { concepts, .. } => concepts.len(),
            JobPayload::Action { .. } => 0,
        };
        let sentence: String = match outcome {
            WriteOutcome::Derive(o) => derive_sentence(strategy, submitted, o),
            WriteOutcome::Action(o) => action_sentence(o),
        };
        let consumed = match consume {
            Some(stamp) => Some(
                (
                    self.receipt.to_string(),
                    WriteIntentOutcome {
                        tag: stamp.tag.to_owned(),
                        summary: sentence.clone(),
                        consumed_at: stamp.at,
                    },
                ),
            ),
            None => None,
        };
        match outcome {
            WriteOutcome::Derive(o) => {
                let mut touched = copy_ids(&o.created);
                let mut matched = copy_ids(&o.matched);
                touched.append(&mut matched);
                let embedded: Option<usize> = match strategy {
                    MatchStrategy::Hybrid => Some(o.embedded),
                    MatchStrategy::Canonical => None,
                };
                AppliedWrite {
                    summary: AppliedSummary {
                        kind: WriteKind::Derive,
                        summary: sentence,
                        created: truncate_ids(&o.created),
                        matched: truncate_ids(&o.matched),
                        created_count: o.created.len(),
                        matched_count: o.matched.len(),
                        semantic_merged: Some(o.semantic_merged),
                        reinforced: Some(o.reinforced),
                        edges: None,
                        embedded,
                    },
                    touched,
                    consumed,
                }
            },
            WriteOutcome::Action(o) => {
                let mut touched = copy_ids(&o.created);
                touched.push(o.action_node);
                let matched: Vec<String> = Vec::new();
                proof {
                    assert(texts(matched@) =~= Seq::<Seq<char>>::empty());
                }
                AppliedWrite {
                    summary: AppliedSummary {
                        kind: WriteKind::RecordAction,
                        summary: sentence,
                        created: truncate_ids(&o.created),
                        matched,
                        created_count: o.created.len(),
                        matched_count: 0,
                        semantic_merged: None,
                        reinforced: None,
                        edges: Some(o.edges),
                        embedded: None,
                    },
                    touched,
                    consumed,
                }
            },
        }
    }
}

} // verus!
