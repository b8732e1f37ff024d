//! Receipts: how they are named, and what they can answer.

use crate::boundary;
use crate::limits::{MAX_CONCURRENT_RECEIPT_WAITS, RECEIPT_RETENTION_SECS, WRITE_QUEUE_MAX_BYTES};
use crate::text::{
    chars_of, clone_strings, decimal, decimal_text, decimal_usize, hex, hex_fixed,
    hex_fixed_reads_back, hex_fixed_text, hex_reads_back, hex_text, is_lower_hex,
    lemma_split_joined, lemma_split_plain, parse_hex_i64, parse_hex_u64, pow16, read_hex,
    read_hex_i64, read_hex_u64, same_chars, split, split_chars, texts,
};
use crate::time::Timestamp;
use crate::types::joined;
use vstd::prelude::*;
use vstd::string::*;

verus! {

/// The name of one admitted or refused write: the process that issued it, when, and its number
/// there.
#[derive(Clone, Copy, Debug, PartialEq, Eq, Structural, Hash, PartialOrd, Ord)]
pub struct ReceiptId {
    pub epoch: u64,
    pub issued_ms: i64,
    pub seq: u64,
}

/// The sixty-four bits of a signed number, as an unsigned one.
pub open spec fn two_complement(n: int) -> nat {
    if n < 0 {
        (n + 0x1_0000_0000_0000_0000) as nat
    } else {
        n as nat
    }
}

/// The text of a receipt id: a prefix and three hexadecimal numbers, joined by dots.
pub open spec fn wire(id: ReceiptId) -> Seq<char> {
    "lwr1"@ + seq!['.'] + hex_fixed(id.epoch as nat, 16) + seq!['.'] + hex(
        two_complement(id.issued_ms as int),
    ) + seq!['.'] + hex(id.seq as nat)
}

/// The receipt id that a text names, where it names one.
pub open spec fn read_wire(s: Seq<char>) -> Option<ReceiptId> {
    let parts = split(s, '.');
    if parts.len() == 4 && parts[0] == "lwr1"@ {
        match (read_hex_u64(parts[1]), read_hex_i64(parts[2]), read_hex_u64(parts[3])) {
            (Some(epoch), Some(issued_ms), Some(seq)) => Some(
                ReceiptId { epoch, issued_ms, seq },
            ),
            _ => None,
        }
    } else {
        None
    }
}

/// The message that refuses a text as a receipt id.
pub open spec fn bad_receipt_text(s: Seq<char>) -> Seq<char> {
    boundary::quoted(s) + " is not a lambo receipt id"@
}

impl ReceiptId {
    /// The receipt with this number that a process issues at this instant.
    pub fn new(epoch: u64, issued: &Timestamp, seq: u64) -> (id: ReceiptId)
        ensures
            id.epoch == epoch,
            id.issued_ms == issued.millis(),
            id.seq == seq,
    {
        ReceiptId { epoch, issued_ms: issued.timestamp_millis(), seq }
    }

    /// The process that issued the receipt.
    pub fn epoch(&self) -> (r: u64)
        ensures
            r == self.epoch,
    {
        self.epoch
    }

    /// When the receipt was issued, in milliseconds since the epoch.
    pub fn issued_ms(&self) -> (r: i64)
        ensures
            r == self.issued_ms,
    {
        self.issued_ms
    }

    /// The receipt's number in its process.
    pub fn seq(&self) -> (r: u64)
        ensures
            r == self.seq,
    {
        self.seq
    }

    /// The text of the receipt id.
    pub fn to_string(&self) -> (s: String)
        ensures
            s@ == wire(*self),
    {
        let issued: u64 = if self.issued_ms < 0 {
            ((self.issued_ms as i128) + 0x1_0000_0000_0000_0000) as u64
        } else {
            self.issued_ms as u64
        };
        let mut s: String = "lwr1".to_owned();
        s.append(".");
        s.append(hex_fixed_text(self.epoch as u128, 16).as_str());
        s.append(".");
        s.append(hex_text(issued).as_str());
        s.append(".");
        s.append(hex_text(self.seq).as_str());
        proof {
            reveal_strlit(".");
            assert("."@ =~= seq!['.']);
        }
        s
    }
}

impl std::str::FromStr for ReceiptId {
    type Err = String;

    /// Reads a receipt id.
    fn from_str(s: &str) -> (r: Result<ReceiptId, String>)
        ensures
            match r {
                Ok(id) => read_wire(s@) == Some(id),
                Err(e) => read_wire(s@) is None && e@ == bad_receipt_text(s@),
            },
    {
        let parts = split_chars(&chars_of(s), '.');
        proof {
            assert(parts@.len() == split(s@, '.').len());
        }
        if parts.len() == 4 {
            proof {
                let views = split(s@, '.');
                assert(parts@[0]@ == views[0]);
                assert(parts@[1]@ == views[1]);
                assert(parts@[2]@ == views[2]);
                assert(parts@[3]@ == views[3]);
            }
            if same_chars(&parts[0], &chars_of("lwr1")) {
                match (
                    parse_hex_u64(&parts[1]),
                    parse_hex_i64(&parts[2]),
                    parse_hex_u64(&parts[3]),
                ) {
                    (Some(epoch), Some(issued_ms), Some(seq)) => {
                        return Ok(ReceiptId { epoch, issued_ms, seq });
                    },
                    _ => {},
                }
            }
        }
        Err(joined(boundary::quote(s).as_str(), " is not a lambo receipt id", ""))
    }
}

proof fn lemma_no_dot(s: Seq<char>)
    requires
        forall|i: int| 0 <= i < s.len() ==> is_lower_hex(#[trigger] s[i]),
    ensures
        !s.contains('.'),
        s.len() > 0 ==> s[0] != '+' && s[0] != '-',
{
    if s.contains('.') {
        let i = choose|i: int| 0 <= i < s.len() && s[i] == '.';
        assert(is_lower_hex(s[i]));
    }
    if s.len() > 0 {
        assert(is_lower_hex(s[0]));
    }
}

proof fn lemma_wire_parts(id: ReceiptId)
    ensures
        split(wire(id), '.') == seq![
            "lwr1"@,
            hex_fixed(id.epoch as nat, 16),
            hex(two_complement(id.issued_ms as int)),
            hex(id.seq as nat),
        ],
        read_hex_u64(hex_fixed(id.epoch as nat, 16)) == Some(id.epoch),
        read_hex(hex(two_complement(id.issued_ms as int))) == Some(
            two_complement(id.issued_ms as int),
        ),
        read_hex_u64(hex(id.seq as nat)) == Some(id.seq),
{
    let prefix = "lwr1"@;
    let epoch = hex_fixed(id.epoch as nat, 16);
    let issued = hex(two_complement(id.issued_ms as int));
    let seq = hex(id.seq as nat);
    assert(pow16(16) == 0x1_0000_0000_0000_0000) by {
        reveal_with_fuel(pow16, 17);
    }
    hex_fixed_reads_back(id.epoch as nat, 16);
    hex_reads_back(two_complement(id.issued_ms as int));
    hex_reads_back(id.seq as nat);
    lemma_no_dot(epoch);
    lemma_no_dot(issued);
    lemma_no_dot(seq);
    reveal_strlit("lwr1");
    assert(!prefix.contains('.'));
    lemma_split_plain(prefix, '.');
    lemma_split_plain(epoch, '.');
    lemma_split_plain(issued, '.');
    lemma_split_plain(seq, '.');
    lemma_split_joined(prefix, '.', epoch);
    lemma_split_joined(prefix + seq!['.'] + epoch, '.', issued);
    lemma_split_joined(prefix + seq!['.'] + epoch + seq!['.'] + issued, '.', seq);
    let parts = split(wire(id), '.');
    assert(parts =~= seq![prefix, epoch, issued, seq]);
    assert(epoch.skip(0) =~= epoch);
}

/// A receipt id issued at the epoch or later reads back from its text as itself.
pub proof fn receipt_id_round_trips(id: ReceiptId)
    requires
        id.issued_ms >= 0,
    ensures
        read_wire(wire(id)) == Some(id),
{
    lemma_wire_parts(id);
    let issued = hex(id.issued_ms as nat);
    assert(read_hex_i64(issued) == Some(id.issued_ms)) by {
        hex_reads_back(id.issued_ms as nat);
        lemma_no_dot(issued);
    }
    let parts = split(wire(id), '.');
    assert(parts.len() == 4);
    assert(parts[0] == "lwr1"@);
    assert(parts[1] == hex_fixed(id.epoch as nat, 16));
    assert(parts[2] == issued);
    assert(parts[3] == hex(id.seq as nat));
}

/// The text of a receipt id is that of no other, whenever the two were issued.
pub proof fn a_receipt_text_is_one_receipt(a: ReceiptId, b: ReceiptId)
    requires
        wire(a) == wire(b),
    ensures
        a == b,
{
    lemma_wire_parts(a);
    lemma_wire_parts(b);
    let p = split(wire(a), '.');
    assert(p[1] == hex_fixed(a.epoch as nat, 16) && p[1] == hex_fixed(b.epoch as nat, 16));
    assert(p[2] == hex(two_complement(a.issued_ms as int)));
    assert(p[2] == hex(two_complement(b.issued_ms as int)));
    assert(p[3] == hex(a.seq as nat) && p[3] == hex(b.seq as nat));
}

/// Which of the two tools a write came through.
#[derive(Clone, Copy, Debug, PartialEq, Eq, Structural)]
pub enum WriteKind {
    Derive,
    RecordAction,
}

impl WriteKind {
    /// The tool's name.
    pub fn tool(self) -> (s: &'static str)
        ensures
            s@ == match self {
                WriteKind::Derive => "lambo_derive"@,
                WriteKind::RecordAction => "lambo_record_action"@,
            },
    {
        match self {
            WriteKind::Derive => "lambo_derive",
            WriteKind::RecordAction => "lambo_record_action",
        }
    }
}

/// What an applied write did. The lists are cut; the counts are not.
#[derive(Debug, PartialEq, Eq)]
pub struct AppliedSummary {
    pub kind: WriteKind,
    pub summary: String,
    pub created: Vec<String>,
    pub matched: Vec<String>,
    pub created_count: usize,
    pub matched_count: usize,
    pub semantic_merged: Option<usize>,
    pub reinforced: Option<usize>,
    pub edges: Option<usize>,
    pub embedded: Option<usize>,
}

/// What an applied write did, as values.
pub struct SummaryModel {
    pub kind: WriteKind,
    pub summary: Seq<char>,
    pub created: Seq<Seq<char>>,
    pub matched: Seq<Seq<char>>,
    pub created_count: usize,
    pub matched_count: usize,
    pub semantic_merged: Option<usize>,
    pub reinforced: Option<usize>,
    pub edges: Option<usize>,
    pub embedded: Option<usize>,
}

impl View for AppliedSummary {
    type V = SummaryModel;

    open spec fn view(&self) -> SummaryModel {
        SummaryModel {
            kind: self.kind,
            summary: self.summary@,
            created: texts(self.created@),
            matched: texts(self.matched@),
            created_count: self.created_count,
            matched_count: self.matched_count,
            semantic_merged: self.semantic_merged,
            reinforced: self.reinforced,
            edges: self.edges,
            embedded: self.embedded,
        }
    }
}

impl Clone for AppliedSummary {
    fn clone(&self) -> (r: AppliedSummary)
        ensures
            r@ == self@,
    {
        AppliedSummary {
            kind: self.kind,
            summary: self.summary.clone(),
            created: clone_strings(&self.created),
            matched: clone_strings(&self.matched),
            created_count: self.created_count,
            matched_count: self.matched_count,
            semantic_merged: self.semantic_merged,
            reinforced: self.reinforced,
            edges: self.edges,
            embedded: self.embedded,
        }
    }
}

/// What is known of a write.
#[derive(Debug, PartialEq, Eq)]
pub enum ReceiptAnswer {
    Pending,
    Applied(AppliedSummary),
    Failed(String),
    AppliedAfterRestart(String),
    IntentRecorded,
    Dropped(String),
    Expired,
    RestartLost,
    NeverIssued,
    Forbidden,
}

/// What is known of a write, as values.
pub enum AnswerModel {
    Pending,
    Applied(SummaryModel),
    Failed(Seq<char>),
    AppliedAfterRestart(Seq<char>),
    IntentRecorded,
    Dropped(Seq<char>),
    Expired,
    RestartLost,
    NeverIssued,
    Forbidden,
}

impl View for ReceiptAnswer {
    type V = AnswerModel;

    open spec fn view(&self) -> AnswerModel {
        match *self {
            ReceiptAnswer::Pending => AnswerModel::Pending,
            ReceiptAnswer::Applied(s) => AnswerModel::Applied(s@),
            ReceiptAnswer::Failed(w) => AnswerModel::Failed(w@),
            ReceiptAnswer::AppliedAfterRestart(s) => AnswerModel::AppliedAfterRestart(s@),
            ReceiptAnswer::IntentRecorded => AnswerModel::IntentRecorded,
            ReceiptAnswer::Dropped(w) => AnswerModel::Dropped(w@),
            ReceiptAnswer::Expired => AnswerModel::Expired,
            ReceiptAnswer::RestartLost => AnswerModel::RestartLost,
            ReceiptAnswer::NeverIssued => AnswerModel::NeverIssued,
            ReceiptAnswer::Forbidden => AnswerModel::Forbidden,
        }
    }
}

impl Clone for ReceiptAnswer {
    fn clone(&self) -> (r: ReceiptAnswer)
        ensures
            r@ == self@,
    {
        match self {
            ReceiptAnswer::Pending => ReceiptAnswer::Pending,
            ReceiptAnswer::Applied(s) => ReceiptAnswer::Applied(s.clone()),
            ReceiptAnswer::Failed(w) => ReceiptAnswer::Failed(w.clone()),
            ReceiptAnswer::AppliedAfterRestart(s) => ReceiptAnswer::AppliedAfterRestart(s.clone()),
            ReceiptAnswer::IntentRecorded => ReceiptAnswer::IntentRecorded,
            ReceiptAnswer::Dropped(w) => ReceiptAnswer::Dropped(w.clone()),
            ReceiptAnswer::Expired => ReceiptAnswer::Expired,
            ReceiptAnswer::RestartLost => ReceiptAnswer::RestartLost,
            ReceiptAnswer::NeverIssued => ReceiptAnswer::NeverIssued,
            ReceiptAnswer::Forbidden => ReceiptAnswer::Forbidden,
        }
    }
}

/// The word for an answer.
pub open spec fn answer_tag(a: AnswerModel) -> Seq<char> {
    match a {
        AnswerModel::Pending => "pending"@,
        AnswerModel::Applied(_) => "applied"@,
        AnswerModel::Failed(_) => "failed"@,
        AnswerModel::AppliedAfterRestart(_) => "applied_after_restart"@,
        AnswerModel::IntentRecorded => "intent_durable"@,
        AnswerModel::Dropped(_) => "dropped"@,
        AnswerModel::Expired => "expired"@,
        AnswerModel::RestartLost => "restart_lost"@,
        AnswerModel::NeverIssued => "never_issued"@,
        AnswerModel::Forbidden => "forbidden"@,
    }
}

/// Which of the ten kinds of answer this is.
pub open spec fn answer_kind(a: AnswerModel) -> int {
    match a {
        AnswerModel::Pending => 0,
        AnswerModel::Applied(_) => 1,
        AnswerModel::Failed(_) => 2,
        AnswerModel::AppliedAfterRestart(_) => 3,
        AnswerModel::IntentRecorded => 4,
        AnswerModel::Dropped(_) => 5,
        AnswerModel::Expired => 6,
        AnswerModel::RestartLost => 7,
        AnswerModel::NeverIssued => 8,
        AnswerModel::Forbidden => 9,
    }
}

proof fn reveal_tags()
    ensures
        "pending"@.len() == 7,
        "applied"@.len() == 7,
        "failed"@.len() == 6,
        "applied_after_restart"@.len() == 21,
        "intent_durable"@.len() == 14,
        "dropped"@.len() == 7,
        "expired"@.len() == 7,
        "restart_lost"@.len() == 12,
        "never_issued"@.len() == 12,
        "forbidden"@.len() == 9,
        "unknown"@.len() == 7,
        "pending"@[0] == 'p',
        "applied"@[0] == 'a',
        "dropped"@[0] == 'd',
        "expired"@[0] == 'e',
        "unknown"@[0] == 'u',
        "restart_lost"@[0] == 'r',
        "never_issued"@[0] == 'n',
{
    reveal_strlit("pending");
    reveal_strlit("applied");
    reveal_strlit("failed");
    reveal_strlit("applied_after_restart");
    reveal_strlit("intent_durable");
    reveal_strlit("dropped");
    reveal_strlit("expired");
    reveal_strlit("restart_lost");
    reveal_strlit("never_issued");
    reveal_strlit("forbidden");
    reveal_strlit("unknown");
}

/// Two kinds of answer never share a word, and no answer is called unknown.
pub proof fn every_answer_has_its_own_tag(a: AnswerModel, b: AnswerModel)
    ensures
        answer_tag(a) == answer_tag(b) <==> answer_kind(a) == answer_kind(b),
        answer_tag(a) != "unknown"@,
{
    reveal_tags();
}

/// What an answer says to its reader.
pub open spec fn answer_text(a: AnswerModel) -> Seq<char> {
    match a {
        AnswerModel::Pending => "pending — admitted, not yet applied; ask again"@,
        AnswerModel::Applied(s) => "applied — "@ + s.summary,
        AnswerModel::Failed(why) => "FAILED, nothing was written — "@ + why,
        AnswerModel::AppliedAfterRestart(summary) => "applied after a restart — "@ + summary
            + " (confirmed from the durable intent record; recall to see the concepts)"@,
        AnswerModel::IntentRecorded => "not applied before this session closed — the validated write is recorded as a DURABLE INTENT and the next serve of this session will apply it, idempotently and in submission order. Fetch this receipt id there, or recall."@,
        AnswerModel::Dropped(why) => "DROPPED before it was attempted, nothing was written — "@
            + why,
        AnswerModel::Expired => "expired — this session issued it but no longer holds its outcome (receipts are kept for "@
            + decimal(RECEIPT_RETENTION_SECS as nat)
            + "s); recall to see whether the write is there"@,
        AnswerModel::RestartLost => "restart-lost — a different serve process issued this receipt, so the outcome is UNKNOWN from here: the write may or may not have been applied before that process ended. Recall before re-deriving."@,
        AnswerModel::NeverIssued => "never issued — this session has never handed out that receipt id"@,
        AnswerModel::Forbidden => "held by another agent — receipts are scoped to the agent that created them"@,
    }
}

impl ReceiptAnswer {
    /// The word for this answer.
    pub fn tag(&self) -> (s: &'static str)
        ensures
            s@ == answer_tag(self@),
    {
        match self {
            ReceiptAnswer::Pending => "pending",
            ReceiptAnswer::Applied(_) => "applied",
            ReceiptAnswer::Failed(_) => "failed",
            ReceiptAnswer::AppliedAfterRestart(_) => "applied_after_restart",
            ReceiptAnswer::IntentRecorded => "intent_durable",
            ReceiptAnswer::Dropped(_) => "dropped",
            ReceiptAnswer::Expired => "expired",
            ReceiptAnswer::RestartLost => "restart_lost",
            ReceiptAnswer::NeverIssued => "never_issued",
            ReceiptAnswer::Forbidden => "forbidden",
        }
    }

    /// Whether the answer will stay: only a pending one will not.
    pub fn is_settled(&self) -> (r: bool)
        ensures
            r == !(self@ is Pending),
    {
        match self {
            ReceiptAnswer::Pending => false,
            _ => true,
        }
    }

    /// What this answer says to its reader.
    pub fn describe(&self) -> (s: String)
        ensures
            s@ == answer_text(self@),
    {
        match self {
            ReceiptAnswer::Pending => "pending — admitted, not yet applied; ask again".to_owned(),
            ReceiptAnswer::Applied(s) => joined("applied — ", s.summary.as_str(), ""),
            ReceiptAnswer::Failed(why) => joined("FAILED, nothing was written — ", why.as_str(), ""),
            ReceiptAnswer::AppliedAfterRestart(summary) => joined(
                "applied after a restart — ",
                summary.as_str(),
                " (confirmed from the durable intent record; recall to see the concepts)",
            ),
            ReceiptAnswer::IntentRecorded => "not applied before this session closed — the validated write is recorded as a DURABLE INTENT and the next serve of this session will apply it, idempotently and in submission order. Fetch this receipt id there, or recall.".to_owned(),
            ReceiptAnswer::Dropped(why) => joined(
                "DROPPED before it was attempted, nothing was written — ",
                why.as_str(),
                "",
            ),
            ReceiptAnswer::Expired => joined(
                "expired — this session issued it but no longer holds its outcome (receipts are kept for ",
                decimal_text(RECEIPT_RETENTION_SECS).as_str(),
                "s); recall to see whether the write is there",
            ),
            ReceiptAnswer::RestartLost => "restart-lost — a different serve process issued this receipt, so the outcome is UNKNOWN from here: the write may or may not have been applied before that process ended. Recall before re-deriving.".to_owned(),
            ReceiptAnswer::NeverIssued => "never issued — this session has never handed out that receipt id".to_owned(),
            ReceiptAnswer::Forbidden => "held by another agent — receipts are scoped to the agent that created them".to_owned(),
        }
    }
}

/// Why a write was refused before it was attempted.
#[derive(Clone, Copy, Debug, PartialEq, Eq, Structural)]
pub enum DropReason {
    LaneFull,
    QueueFull,
    QueueBytes,
    Closed,
}

/// What a refusal says to its reader.
pub open spec fn drop_text(reason: DropReason, bound: nat) -> Seq<char> {
    match reason {
        DropReason::LaneFull => "this agent's background write lane is full ("@ + decimal(bound)
            + " outstanding — the per-agent fair-share cap, 1/"@ + decimal(
            MAX_CONCURRENT_RECEIPT_WAITS as nat,
        ) + " of the queue; wait for receipts to settle and resubmit)"@,
        DropReason::QueueFull => "the background write queue is full ("@ + decimal(bound)
            + " outstanding — the whole-queue memory cap; wait for receipts to settle and resubmit)"@,
        DropReason::QueueBytes => "the background write queue is at its "@ + decimal(
            (WRITE_QUEUE_MAX_BYTES / 0x10_0000) as nat,
        ) + " MiB payload cap"@,
        DropReason::Closed => "the session is closing"@,
    }
}

impl DropReason {
    /// What this refusal says to its reader.
    pub fn describe(self, bound: usize) -> (s: String)
        ensures
            s@ == drop_text(self, bound as nat),
    {
        match self {
            DropReason::LaneFull => {
                let mut s: String = "this agent's background write lane is full (".to_owned();
                s.append(decimal_usize(bound).as_str());
                s.append(" outstanding — the per-agent fair-share cap, 1/");
                s.append(decimal_usize(MAX_CONCURRENT_RECEIPT_WAITS).as_str());
                s.append(" of the queue; wait for receipts to settle and resubmit)");
                s
            },
            DropReason::QueueFull => joined(
                "the background write queue is full (",
                decimal_usize(bound).as_str(),
                " outstanding — the whole-queue memory cap; wait for receipts to settle and resubmit)",
            ),
            DropReason::QueueBytes => joined(
                "the background write queue is at its ",
                decimal_usize(WRITE_QUEUE_MAX_BYTES / 0x10_0000).as_str(),
                " MiB payload cap",
            ),
            DropReason::Closed => "the session is closing".to_owned(),
        }
    }
}

} // verus!
