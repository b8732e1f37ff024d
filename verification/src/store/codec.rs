//! Values in columns: how identifiers, instants and the words of the enumerations are written, and
//! how they are read back.

use crate::boundary::{self, hyphenated, is_stored_instant, quoted, rfc3339_read, uuid_read};
use crate::calendar::{a_text_is_one_instant, date_text};
use crate::text::hyphenated_is_one_number;
use crate::time::{
    age_of, earlier_by, in_four_digit_years, reaches_back, stored_text, too_old, ts_to_text,
    Timestamp, MAX_AGE_NANOS, MAX_AGE_SECS,
};
use crate::types::{
    opt_text, CanonizationStatus, ConceptType, EdgeType, NodeId, StoreError, StoreErrorModel,
};
use vstd::prelude::*;
use vstd::string::*;

verus! {

/// The message that refuses a stored value.
pub open spec fn invalid_stored(what: Seq<char>, s: Seq<char>, why: Seq<char>) -> StoreErrorModel {
    StoreErrorModel::Backend("invalid stored "@ + what + " "@ + quoted(s) + ": "@ + why)
}

fn invalid(what: &str, s: &str, why: &str) -> (e: StoreError)
    ensures
        e@ == invalid_stored(what@, s@, why@),
{
    let mut m: String = "invalid stored ".to_owned();
    m.append(what);
    m.append(" ");
    m.append(boundary::quote(s).as_str());
    m.append(": ");
    m.append(why);
    StoreError::Backend(m)
}

/// That a text is the hyphenated form of a number.
pub open spec fn is_id_text(s: Seq<char>) -> bool {
    exists|n: u128| s == #[trigger] hyphenated(n as nat)
}

/// The identifier that a stored text names. The hyphenated form is read as what it says; what else
/// can be read is up to the `uuid` crate.
pub open spec fn id_read(s: Seq<char>, what: Seq<char>) -> Result<NodeId, StoreErrorModel> {
    if is_id_text(s) {
        Ok(NodeId(choose|n: u128| s == #[trigger] hyphenated(n as nat)))
    } else {
        match uuid_read(s) {
            Ok(n) => Ok(NodeId(n)),
            Err(why) => Err(invalid_stored(what, s, why)),
        }
    }
}

/// An identifier reads back as itself.
pub proof fn an_identifier_reads_back(id: NodeId, what: Seq<char>)
    ensures
        id_read(hyphenated(id.0 as nat), what) == Ok::<NodeId, StoreErrorModel>(id),
{
    let s = hyphenated(id.0 as nat);
    let n = choose|n: u128| s == #[trigger] hyphenated(n as nat);
    hyphenated_is_one_number(id.0, n);
}

/// Reads a stored identifier.
pub fn node_id(s: &str, what: &str) -> (r: Result<NodeId, StoreError>)
    ensures
        match r {
            Ok(id) => id_read(s@, what@) == Ok::<NodeId, StoreErrorModel>(id),
            Err(e) => id_read(s@, what@) == Err::<NodeId, StoreErrorModel>(e@),
        },
{
    proof {
        if is_id_text(s@) {
            let n = choose|n: u128| s@ == #[trigger] hyphenated(n as nat);
            an_identifier_reads_back(NodeId(n), what@);
        }
    }
    match boundary::parse_uuid(s) {
        Ok(n) => Ok(NodeId(n)),
        Err(why) => Err(invalid(what, s, why.as_str())),
    }
}

/// The optional identifier that a stored text names.
pub open spec fn opt_id_read(s: Option<Seq<char>>, what: Seq<char>) -> Result<
    Option<NodeId>,
    StoreErrorModel,
> {
    match s {
        None => Ok(None),
        Some(t) => match id_read(t, what) {
            Ok(id) => Ok(Some(id)),
            Err(e) => Err(e),
        },
    }
}

/// Reads a stored identifier, where there is one.
pub fn opt_node_id(s: &Option<String>, what: &str) -> (r: Result<Option<NodeId>, StoreError>)
    ensures
        match r {
            Ok(id) => opt_id_read(opt_text(*s), what@) == Ok::<Option<NodeId>, StoreErrorModel>(id),
            Err(e) => opt_id_read(opt_text(*s), what@) == Err::<Option<NodeId>, StoreErrorModel>(
                e@,
            ),
        },
{
    match s {
        None => Ok(None),
        Some(t) => match node_id(t.as_str(), what) {
            Ok(id) => Ok(Some(id)),
            Err(e) => Err(e),
        },
    }
}

/// That a text is the stored form of an instant at milliseconds, in a year of four digits.
pub open spec fn is_stored_form(s: Seq<char>, secs: int, nanos: int) -> bool {
    is_stored_instant(secs, nanos) && s == date_text(secs, nanos)
}

/// The instant that a stored text names. The stored form is read as what it says; what else can be
/// read is up to the `chrono` crate.
pub open spec fn ts_read(s: Seq<char>) -> Result<Timestamp, StoreErrorModel> {
    if exists|secs: int, nanos: int| #[trigger] is_stored_form(s, secs, nanos) {
        let (secs, nanos) = choose|secs: int, nanos: int| #[trigger]
            is_stored_form(s, secs, nanos);
        Ok(Timestamp::at(secs, nanos))
    } else {
        match rfc3339_read(s) {
            Ok(p) => Ok(Timestamp::at(p.0 as int, p.1 as int)),
            Err(why) => Err(invalid_stored("timestamp"@, s, why)),
        }
    }
}

/// The stored form of an instant in a year of four digits reads back as the instant, cut to the
/// millisecond.
pub proof fn an_instant_reads_back(t: Timestamp)
    requires
        t.valid(),
        in_four_digit_years(t.secs()),
    ensures
        ts_read(stored_text(t)) == Ok::<Timestamp, StoreErrorModel>(t.cut()),
{
    let s = stored_text(t);
    let cut = t.sub_nanos() - t.sub_nanos() % 1_000_000;
    assert(cut % 1_000_000 == 0 && cut / 1_000_000 == t.sub_nanos() / 1_000_000);
    a_text_is_one_instant(t.secs(), t.sub_nanos(), t.secs(), cut);
    assert(is_stored_form(s, t.secs(), cut));
    let (secs, nanos) = choose|secs: int, nanos: int| #[trigger] is_stored_form(s, secs, nanos);
    assert(is_stored_form(s, secs, nanos));
    a_text_is_one_instant(t.secs(), cut, secs, nanos);
    assert(secs == t.secs() && nanos == cut);
}

/// Reads a stored instant.
pub fn text_to_ts(s: &str) -> (r: Result<Timestamp, StoreError>)
    ensures
        match r {
            Ok(t) => ts_read(s@) == Ok::<Timestamp, StoreErrorModel>(t) && t.valid(),
            Err(e) => ts_read(s@) == Err::<Timestamp, StoreErrorModel>(e@),
        },
{
    proof {
        if exists|secs: int, nanos: int| #[trigger] is_stored_form(s@, secs, nanos) {
            let (secs, nanos) = choose|secs: int, nanos: int| #[trigger]
                is_stored_form(s@, secs, nanos);
            assert(is_stored_instant(secs, nanos) && s@ == date_text(secs, nanos));
        }
    }
    match boundary::parse_rfc3339(s) {
        Ok(parts) => Ok(Timestamp::from_parts(parts.0, parts.1).unwrap()),
        Err(why) => Err(invalid("timestamp", s, why.as_str())),
    }
}

/// The optional instant that a stored text names.
pub open spec fn opt_ts_read(s: Option<Seq<char>>) -> Result<Option<Timestamp>, StoreErrorModel> {
    match s {
        None => Ok(None),
        Some(t) => match ts_read(t) {
            Ok(x) => Ok(Some(x)),
            Err(e) => Err(e),
        },
    }
}

/// Reads a stored instant, where there is one.
pub fn opt_text_to_ts(s: &Option<String>) -> (r: Result<Option<Timestamp>, StoreError>)
    ensures
        match r {
            Ok(t) => opt_ts_read(opt_text(*s)) == Ok::<Option<Timestamp>, StoreErrorModel>(t),
            Err(e) => opt_ts_read(opt_text(*s)) == Err::<Option<Timestamp>, StoreErrorModel>(e@),
        },
{
    match s {
        None => Ok(None),
        Some(t) => match text_to_ts(t.as_str()) {
            Ok(x) => Ok(Some(x)),
            Err(e) => Err(e),
        },
    }
}

/// An optional instant cut to the millisecond.
pub open spec fn cut_opt(t: Option<Timestamp>) -> Option<Timestamp> {
    match t {
        Some(x) => Some(x.cut()),
        None => None,
    }
}

/// An optional instant has a year of four digits.
pub open spec fn opt_four_digits(t: Option<Timestamp>) -> bool {
    t matches Some(x) ==> in_four_digit_years(x.secs())
}

/// The stored form of an optional instant.
pub open spec fn opt_stored(t: Option<Timestamp>) -> Option<Seq<char>> {
    match t {
        Some(x) => Some(stored_text(x)),
        None => None,
    }
}

/// Writes an instant. Where its year has four digits it reads back as itself, cut to the
/// millisecond.
pub fn write_ts(t: &Timestamp) -> (s: String)
    ensures
        s@ == stored_text(*t),
        in_four_digit_years(t.secs()) ==> s@.len() == 24,
        in_four_digit_years(t.secs()) ==> ts_read(s@) == Ok::<Timestamp, StoreErrorModel>(t.cut()),
{
    let s = ts_to_text(t);
    proof {
        if in_four_digit_years(t.secs()) {
            an_instant_reads_back(*t);
        }
    }
    s
}

/// Writes an instant, where there is one.
pub fn write_opt_ts(t: &Option<Timestamp>) -> (s: Option<String>)
    ensures
        opt_text(s) == opt_stored(*t),
        opt_four_digits(*t) ==> opt_ts_read(opt_text(s)) == Ok::<
            Option<Timestamp>,
            StoreErrorModel,
        >(cut_opt(*t)),
{
    match t {
        Some(x) => Some(write_ts(x)),
        None => None,
    }
}

/// Writes an identifier, where there is one.
pub fn write_opt_id(id: &Option<NodeId>) -> (s: Option<String>)
    ensures
        opt_text(s) == opt_id_text(*id),
        forall|what: Seq<char>| #[trigger]
            opt_id_read(opt_text(s), what) == Ok::<Option<NodeId>, StoreErrorModel>(*id),
{
    match id {
        Some(x) => Some(x.to_string()),
        None => None,
    }
}

/// The stored form of an optional identifier.
pub open spec fn opt_id_text(id: Option<NodeId>) -> Option<Seq<char>> {
    match id {
        Some(x) => Some(hyphenated(x.0 as nat)),
        None => None,
    }
}

/// The stored word for a concept type.
pub open spec fn concept_type_text(t: ConceptType) -> Seq<char> {
    match t {
        ConceptType::Entity => "Entity"@,
        ConceptType::Logic => "Logic"@,
        ConceptType::Constraint => "Constraint"@,
        ConceptType::Resource => "Resource"@,
        ConceptType::Observation => "Observation"@,
    }
}

/// The stored word for an edge type.
pub open spec fn edge_type_text(t: EdgeType) -> Seq<char> {
    match t {
        EdgeType::Temporal => "Temporal"@,
        EdgeType::Derives => "Derives"@,
        EdgeType::CoOccurrence => "CoOccurrence"@,
        EdgeType::Causal => "Causal"@,
        EdgeType::Dependency => "Dependency"@,
        EdgeType::Hierarchical => "Hierarchical"@,
        EdgeType::Semantic => "Semantic"@,
    }
}

/// The stored word for a canonization status.
pub open spec fn status_text(t: CanonizationStatus) -> Seq<char> {
    match t {
        CanonizationStatus::Uncanonized => "None"@,
        CanonizationStatus::Candidate => "Candidate"@,
        CanonizationStatus::Venerable => "Venerable"@,
        CanonizationStatus::Canonical => "Canonical"@,
    }
}

/// Why a stored word is refused.
pub open spec fn unknown_variant(s: Seq<char>, expected: Seq<char>) -> Seq<char> {
    "unknown variant `"@ + s + "`, expected one of "@ + expected
}

fn unknown(what: &str, s: &str, expected: &str) -> (e: StoreError)
    ensures
        e@ == invalid_stored(what@, s@, unknown_variant(s@, expected@)),
{
    let mut why: String = "unknown variant `".to_owned();
    why.append(s);
    why.append("`, expected one of ");
    why.append(expected);
    invalid(what, s, why.as_str())
}

/// The words for concept types, as an error lists them.
pub const CONCEPT_TYPES: &'static str = "`Entity`, `Logic`, `Constraint`, `Resource`, `Observation`";

/// The words for edge types, as an error lists them.
pub const EDGE_TYPES: &'static str = "`Temporal`, `Derives`, `CoOccurrence`, `Causal`, `Dependency`, `Hierarchical`, `Semantic`";

/// The words for canonization statuses, as an error lists them.
pub const STATUSES: &'static str = "`None`, `Candidate`, `Venerable`, `Canonical`";

/// The concept type that a stored word names.
pub open spec fn concept_type_read(s: Seq<char>) -> Result<ConceptType, StoreErrorModel> {
    if s == "Entity"@ {
        Ok(ConceptType::Entity)
    } else if s == "Logic"@ {
        Ok(ConceptType::Logic)
    } else if s == "Constraint"@ {
        Ok(ConceptType::Constraint)
    } else if s == "Resource"@ {
        Ok(ConceptType::Resource)
    } else if s == "Observation"@ {
        Ok(ConceptType::Observation)
    } else {
        Err(invalid_stored("concept_type"@, s, unknown_variant(s, CONCEPT_TYPES@)))
    }
}

/// The edge type that a stored word names.
pub open spec fn edge_type_read(s: Seq<char>) -> Result<EdgeType, StoreErrorModel> {
    if s == "Temporal"@ {
        Ok(EdgeType::Temporal)
    } else if s == "Derives"@ {
        Ok(EdgeType::Derives)
    } else if s == "CoOccurrence"@ {
        Ok(EdgeType::CoOccurrence)
    } else if s == "Causal"@ {
        Ok(EdgeType::Causal)
    } else if s == "Dependency"@ {
        Ok(EdgeType::Dependency)
    } else if s == "Hierarchical"@ {
        Ok(EdgeType::Hierarchical)
    } else if s == "Semantic"@ {
        Ok(EdgeType::Semantic)
    } else {
        Err(invalid_stored("edge_type"@, s, unknown_variant(s, EDGE_TYPES@)))
    }
}

/// The canonization status that a stored word names.
pub open spec fn status_read(s: Seq<char>, what: Seq<char>) -> Result<
    CanonizationStatus,
    StoreErrorModel,
> {
    if s == "None"@ {
        Ok(CanonizationStatus::Uncanonized)
    } else if s == "Candidate"@ {
        Ok(CanonizationStatus::Candidate)
    } else if s == "Venerable"@ {
        Ok(CanonizationStatus::Venerable)
    } else if s == "Canonical"@ {
        Ok(CanonizationStatus::Canonical)
    } else {
        Err(invalid_stored(what, s, unknown_variant(s, STATUSES@)))
    }
}

/// Every concept type reads back from its word.
pub proof fn concept_type_round_trips(t: ConceptType)
    ensures
        concept_type_read(concept_type_text(t)) == Ok::<ConceptType, StoreErrorModel>(t),
{
    reveal_strlit("Entity");
    reveal_strlit("Logic");
    reveal_strlit("Constraint");
    reveal_strlit("Resource");
    reveal_strlit("Observation");
    assert("Entity"@[0] == 'E');
    assert("Logic"@[0] == 'L');
    assert("Constraint"@[0] == 'C');
    assert("Resource"@[0] == 'R');
    assert("Observation"@[0] == 'O');
}

/// Every edge type reads back from its word.
pub proof fn edge_type_round_trips(t: EdgeType)
    ensures
        edge_type_read(edge_type_text(t)) == Ok::<EdgeType, StoreErrorModel>(t),
{
    reveal_strlit("Temporal");
    reveal_strlit("Derives");
    reveal_strlit("CoOccurrence");
    reveal_strlit("Causal");
    reveal_strlit("Dependency");
    reveal_strlit("Hierarchical");
    reveal_strlit("Semantic");
    assert("Temporal"@[0] == 'T');
    assert("Derives"@[1] == 'e' && "Derives"@[2] == 'r');
    assert("CoOccurrence"@[1] == 'o');
    assert("Causal"@[1] == 'a');
    assert("Dependency"@[2] == 'p');
    assert("Hierarchical"@[0] == 'H');
    assert("Semantic"@[0] == 'S');
    assert("Derives"@[0] == 'D' && "Dependency"@[0] == 'D');
    assert("CoOccurrence"@[0] == 'C' && "Causal"@[0] == 'C');
}

/// Every canonization status reads back from its word.
pub proof fn status_round_trips(t: CanonizationStatus, what: Seq<char>)
    ensures
        status_read(status_text(t), what) == Ok::<CanonizationStatus, StoreErrorModel>(t),
{
    reveal_strlit("None");
    reveal_strlit("Candidate");
    reveal_strlit("Venerable");
    reveal_strlit("Canonical");
    assert("None"@[0] == 'N');
    assert("Candidate"@[3] == 'd');
    assert("Venerable"@[0] == 'V');
    assert("Canonical"@[3] == 'o');
    assert("Candidate"@[0] == 'C' && "Canonical"@[0] == 'C');
}

/// The stored word for a concept type.
pub fn concept_type_to_text(t: ConceptType) -> (s: String)
    ensures
        s@ == concept_type_text(t),
        concept_type_read(s@) == Ok::<ConceptType, StoreErrorModel>(t),
{
    proof {
        concept_type_round_trips(t);
    }
    match t {
        ConceptType::Entity => "Entity".to_owned(),
        ConceptType::Logic => "Logic".to_owned(),
        ConceptType::Constraint => "Constraint".to_owned(),
        ConceptType::Resource => "Resource".to_owned(),
        ConceptType::Observation => "Observation".to_owned(),
    }
}

/// The stored word for an edge type.
pub fn edge_type_to_text(t: EdgeType) -> (s: String)
    ensures
        s@ == edge_type_text(t),
        edge_type_read(s@) == Ok::<EdgeType, StoreErrorModel>(t),
{
    proof {
        edge_type_round_trips(t);
    }
    match t {
        EdgeType::Temporal => "Temporal".to_owned(),
        EdgeType::Derives => "Derives".to_owned(),
        EdgeType::CoOccurrence => "CoOccurrence".to_owned(),
        EdgeType::Causal => "Causal".to_owned(),
        EdgeType::Dependency => "Dependency".to_owned(),
        EdgeType::Hierarchical => "Hierarchical".to_owned(),
        EdgeType::Semantic => "Semantic".to_owned(),
    }
}

/// The stored word for a canonization status.
pub fn status_to_text(t: CanonizationStatus) -> (s: String)
    ensures
        s@ == status_text(t),
        forall|what: Seq<char>| #[trigger]
            status_read(s@, what) == Ok::<CanonizationStatus, StoreErrorModel>(t),
{
    proof {
        assert forall|what: Seq<char>| #[trigger]
            status_read(status_text(t), what) == Ok::<CanonizationStatus, StoreErrorModel>(t) by {
            status_round_trips(t, what);
        }
    }
    match t {
        CanonizationStatus::Uncanonized => "None".to_owned(),
        CanonizationStatus::Candidate => "Candidate".to_owned(),
        CanonizationStatus::Venerable => "Venerable".to_owned(),
        CanonizationStatus::Canonical => "Canonical".to_owned(),
    }
}

fn is(s: &str, word: &str) -> (r: bool)
    ensures
        r == (s@ == word@),
{
    let a: String = s.to_owned();
    let b: String = word.to_owned();
    a == b
}

/// Reads a stored concept type.
pub fn text_to_concept_type(s: &str) -> (r: Result<ConceptType, StoreError>)
    ensures
        match r {
            Ok(t) => concept_type_read(s@) == Ok::<ConceptType, StoreErrorModel>(t),
            Err(e) => concept_type_read(s@) == Err::<ConceptType, StoreErrorModel>(e@),
        },
{
    if is(s, "Entity") {
        Ok(ConceptType::Entity)
    } else if is(s, "Logic") {
        Ok(ConceptType::Logic)
    } else if is(s, "Constraint") {
        Ok(ConceptType::Constraint)
    } else if is(s, "Resource") {
        Ok(ConceptType::Resource)
    } else if is(s, "Observation") {
        Ok(ConceptType::Observation)
    } else {
        Err(unknown("concept_type", s, CONCEPT_TYPES))
    }
}

/// Reads a stored edge type.
pub fn text_to_edge_type(s: &str) -> (r: Result<EdgeType, StoreError>)
    ensures
        match r {
            Ok(t) => edge_type_read(s@) == Ok::<EdgeType, StoreErrorModel>(t),
            Err(e) => edge_type_read(s@) == Err::<EdgeType, StoreErrorModel>(e@),
        },
{
    if is(s, "Temporal") {
        Ok(EdgeType::Temporal)
    } else if is(s, "Derives") {
        Ok(EdgeType::Derives)
    } else if is(s, "CoOccurrence") {
        Ok(EdgeType::CoOccurrence)
    } else if is(s, "Causal") {
        Ok(EdgeType::Causal)
    } else if is(s, "Dependency") {
        Ok(EdgeType::Dependency)
    } else if is(s, "Hierarchical") {
        Ok(EdgeType::Hierarchical)
    } else if is(s, "Semantic") {
        Ok(EdgeType::Semantic)
    } else {
        Err(unknown("edge_type", s, EDGE_TYPES))
    }
}

/// Reads a stored canonization status.
pub fn text_to_status(s: &str, what: &str) -> (r: Result<CanonizationStatus, StoreError>)
    ensures
        match r {
            Ok(t) => status_read(s@, what@) == Ok::<CanonizationStatus, StoreErrorModel>(t),
            Err(e) => status_read(s@, what@) == Err::<CanonizationStatus, StoreErrorModel>(e@),
        },
{
    if is(s, "None") {
        Ok(CanonizationStatus::Uncanonized)
    } else if is(s, "Candidate") {
        Ok(CanonizationStatus::Candidate)
    } else if is(s, "Venerable") {
        Ok(CanonizationStatus::Venerable)
    } else if is(s, "Canonical") {
        Ok(CanonizationStatus::Canonical)
    } else {
        Err(unknown(what, s, STATUSES))
    }
}

/// The error of an age that is too long.
pub open spec fn age_out_of_range() -> StoreErrorModel {
    StoreErrorModel::Backend(
        "age duration out of range: Source duration value is out of range for the target type"@,
    )
}

/// The stored form of the instant that lies an age before another.
pub open spec fn cutoff(now: Timestamp, secs: u64, nanos: u32) -> Seq<char> {
    stored_text(earlier_by(now, age_of(secs, nanos)))
}

/// Writes the instant that lies an age before `now`. An age that is too long is an error.
pub fn cutoff_text(now: &Timestamp, secs: u64, nanos: u32) -> (r: Result<String, StoreError>)
    requires
        nanos < 1_000_000_000,
        too_old(secs, nanos) || reaches_back(*now, age_of(secs, nanos)),
    ensures
        match r {
            Ok(s) => !too_old(secs, nanos) && s@ == cutoff(*now, secs, nanos),
            Err(e) => too_old(secs, nanos) && e@ == age_out_of_range(),
        },
{
    if secs > MAX_AGE_SECS || (secs == MAX_AGE_SECS && nanos > MAX_AGE_NANOS) {
        return Err(
            StoreError::Backend(
                "age duration out of range: Source duration value is out of range for the target type".to_owned(),
            ),
        );
    }
    Ok(ts_to_text(&now.minus(secs, nanos)))
}

} // verus!
