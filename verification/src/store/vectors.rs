//! Finding concepts by their vectors: which of a session's vectors may be compared with a probe,
//! and the order of what was found.

use crate::store::codec::{id_read, node_id};
use crate::store::keys::key1;
use crate::store::keyword::at_most;
use crate::store::load::{load_session, loads_as, snapshot_seen, where_row};
use crate::store::rows::{clone_vector, ConceptRow, ConceptRowModel};
use crate::store::session::{
    concept_rows, contract_of, lemma_error_stays, read_all, session_embedding_from_parts,
    SessionRow, SnapshotModel,
};
use crate::store::table::{kept, lists, ranked, Pick, Row, RowKey};
use crate::store::tables::{session_of, Tables, TablesModel};
use crate::store::vector::{embedding_fault, ensure_is_an_embedding};
use crate::text::{decimal, decimal_usize};
use crate::types::{
    clone_opt, incompatible_text, joined, ContractModel, EmbeddingContract, NodeId, SessionId,
    StoreError, StoreErrorModel,
};
use vstd::prelude::*;
use vstd::string::*;

verus! {

/// The concepts of a session that have a vector.
pub struct Embedded {
    pub session: String,
}

impl Pick<ConceptRow> for Embedded {
    open spec fn picks(&self, row: ConceptRowModel) -> bool {
        row.session == self.session@ && row.embedding is Some
    }

    fn picks_row(&self, row: &ConceptRow) -> (r: bool) {
        row.session_id == self.session && row.embedding.is_some()
    }
}

/// The concepts of a session that have a vector.
pub open spec fn embedded_in(t: TablesModel, s: Seq<char>) -> Map<RowKey, ConceptRowModel> {
    where_row(t.concepts, |r: ConceptRowModel| r.session == s && r.embedding is Some)
}

/// A concept and its vector.
#[derive(Debug)]
pub struct VectorCandidate {
    pub id: NodeId,
    pub vector: Vec<u32>,
}

/// A concept and its vector, as values.
pub struct CandidateModel {
    pub id: NodeId,
    pub vector: Seq<u32>,
}

impl View for VectorCandidate {
    type V = CandidateModel;

    open spec fn view(&self) -> CandidateModel {
        CandidateModel { id: self.id, vector: self.vector@ }
    }
}

/// Candidates, as values.
pub open spec fn candidates_of(v: Seq<VectorCandidate>) -> Seq<CandidateModel> {
    Seq::new(v.len(), |i: int| v[i]@)
}

/// The error of a stored vector of another width than its session says.
pub open spec fn stored_width_wrong(
    id: Seq<char>,
    width: nat,
    session: Seq<char>,
    dim: nat,
) -> StoreErrorModel {
    StoreErrorModel::Backend(
        "concepts.embedding for "@ + id + " decodes to "@ + decimal(width)
            + " dimensions but session "@ + session + " declares "@ + decimal(dim),
    )
}

/// What is read of a concept with a vector.
pub open spec fn candidate_read(session: Seq<char>, dim: nat) -> spec_fn(ConceptRowModel) -> Result<
    CandidateModel,
    StoreErrorModel,
> {
    |row: ConceptRowModel|
        {
            let vector = match row.embedding {
                Some(v) => v,
                None => Seq::empty(),
            };
            if vector.len() != dim {
                Err(stored_width_wrong(row.id, vector.len(), session, dim))
            } else {
                match id_read(row.id, "concept id"@) {
                    Ok(id) => Ok(CandidateModel { id, vector }),
                    Err(e) => Err(e),
                }
            }
        }
}

/// Candidates that were read, or the error.
pub open spec fn candidates_seen(r: Result<Vec<VectorCandidate>, StoreError>) -> Result<
    Seq<CandidateModel>,
    StoreErrorModel,
> {
    match r {
        Ok(v) => Ok(candidates_of(v@)),
        Err(e) => Err(e@),
    }
}

fn read_candidate(row: &ConceptRow, session: &str, dim: usize) -> (r: Result<
    VectorCandidate,
    StoreError,
>)
    ensures
        match r {
            Ok(c) => candidate_read(session@, dim as nat)(row@) == Ok::<
                CandidateModel,
                StoreErrorModel,
            >(c@),
            Err(e) => candidate_read(session@, dim as nat)(row@) == Err::<
                CandidateModel,
                StoreErrorModel,
            >(e@),
        },
{
    let vector: Vec<u32> = match clone_vector(&row.embedding) {
        Some(v) => v,
        None => Vec::new(),
    };
    if vector.len() != dim {
        let mut s = "concepts.embedding for ".to_owned();
        s.append(row.id.as_str());
        s.append(" decodes to ");
        s.append(decimal_usize(vector.len()).as_str());
        s.append(" dimensions but session ");
        s.append(session);
        s.append(" declares ");
        s.append(decimal_usize(dim).as_str());
        return Err(StoreError::Backend(s));
    }
    match node_id(row.id.as_str(), "concept id") {
        Ok(id) => Ok(VectorCandidate { id, vector }),
        Err(e) => Err(e),
    }
}

/// The vectors of a session, by the identifiers of their concepts. The first that cannot be read
/// decides.
pub fn select_session_vectors(t: &Tables, session: &SessionId, dim: usize) -> (r: Result<
    Vec<VectorCandidate>,
    StoreError,
>)
    requires
        t.wf(),
    ensures
        pool_read(t@, session@, dim as nat, candidates_seen(r)),
{
    let p = Embedded { session: session.0.clone() };
    let rows = t.concepts.select(&p);
    proof {
        assert(kept(t.concepts@, p) =~= embedded_in(t@, session@));
    }
    let ghost all = concept_rows(rows@);
    let ghost read = candidate_read(session@, dim as nat);
    let mut out: Vec<VectorCandidate> = Vec::new();
    let mut i: usize = 0;
    proof {
        assert(all.take(0) =~= Seq::empty());
        assert(candidates_of(out@) =~= Seq::empty());
    }
    while i < rows.len()
        invariant
            all == concept_rows(rows@),
            read == candidate_read(session@, dim as nat),
            lists(rows@, embedded_in(t@, session@)),
            ranked(rows@),
            i <= rows@.len(),
            read_all(all.take(i as int), read) == Ok::<Seq<CandidateModel>, StoreErrorModel>(
                candidates_of(out@),
            ),
        decreases rows@.len() - i,
    {
        let ghost before = out@;
        proof {
            assert(all.take(i + 1).drop_last() =~= all.take(i as int));
            assert(all.take(i + 1).last() == rows@[i as int]@);
        }
        match read_candidate(&rows[i], session.as_str(), dim) {
            Ok(c) => {
                out.push(c);
                proof {
                    assert(candidates_of(out@) =~= candidates_of(before).push(c@));
                }
            },
            Err(e) => {
                proof {
                    lemma_error_stays(all, read, i + 1, e@);
                }
                return Err(e);
            },
        }
        i = i + 1;
    }
    proof {
        assert(all.take(all.len() as int) =~= all);
    }
    Ok(out)
}

/// What is read of a session's vectors.
pub open spec fn pool_read(
    t: TablesModel,
    s: Seq<char>,
    dim: nat,
    r: Result<Seq<CandidateModel>, StoreErrorModel>,
) -> bool {
    exists|rows: Seq<ConceptRow>|
        #![trigger concept_rows(rows)]
        lists(rows, embedded_in(t, s)) && ranked(rows) && r == read_all(
            concept_rows(rows),
            candidate_read(s, dim),
        )
}

/// The refusal of a probe whose contract is not the session's.
pub open spec fn contract_changed(stored: ContractModel, expected: ContractModel) -> StoreErrorModel {
    StoreErrorModel::Invariant(
        "vector candidate lookup refused after embedding contract changed: config: "@
            + incompatible_text(stored, expected),
    )
}

/// The refusal of a probe of another width than the session's vectors.
pub open spec fn probe_width_wrong(width: nat, session: Seq<char>, dim: nat) -> StoreErrorModel {
    StoreErrorModel::Invariant(
        "query embedding has "@ + decimal(width) + " dimensions but session "@ + session
            + " stores vectors of "@ + decimal(dim)
            + " (the session's durable embedding contract is the authority here, not the process-wide vector_dimensions())"@,
    )
}

/// The refusal of a limit above the largest that is allowed.
pub open spec fn limit_too_large(limit: nat, max: nat) -> StoreErrorModel {
    StoreErrorModel::Invariant(
        "vector candidate limit "@ + decimal(limit) + " exceeds the maximum of "@ + decimal(max),
    )
}

/// Tests how many candidates a caller asks for against the most that may be asked for.
pub fn validate_vector_candidate_limit(limit: usize, max: usize) -> (r: Result<(), StoreError>)
    ensures
        match r {
            Ok(()) => limit <= max,
            Err(e) => limit > max && e@ == limit_too_large(limit as nat, max as nat),
        },
{
    if limit > max {
        let mut s = "vector candidate limit ".to_owned();
        s.append(decimal_usize(limit).as_str());
        s.append(" exceeds the maximum of ");
        s.append(decimal_usize(max).as_str());
        return Err(StoreError::Invariant(s));
    }
    Ok(())
}

/// What a probe may be compared with: a refusal where more is asked for than may be; nothing where
/// nothing is asked for; a refusal where the probe is no embedding; nothing where there is no session, or where it has no contract; a refusal
/// where the probe's contract or width is not the session's; otherwise the session's vectors.
pub open spec fn pool_answer(
    t: TablesModel,
    s: Seq<char>,
    probe: Seq<u32>,
    expected: ContractModel,
    limit: nat,
    max: nat,
    r: Result<Seq<CandidateModel>, StoreErrorModel>,
) -> bool {
    if limit > max {
        r == Err::<Seq<CandidateModel>, StoreErrorModel>(limit_too_large(limit, max))
    } else if limit == 0 {
        r == Ok::<Seq<CandidateModel>, StoreErrorModel>(Seq::empty())
    } else if embedding_fault(probe) is Some {
        r == Err::<Seq<CandidateModel>, StoreErrorModel>(embedding_fault(probe)->0)
    } else {
        match session_of(t, s) {
            None => r == Ok::<Seq<CandidateModel>, StoreErrorModel>(Seq::empty()),
            Some(row) => match contract_of(row) {
                Err(e) => r == Err::<Seq<CandidateModel>, StoreErrorModel>(e),
                Ok(None) => r == Ok::<Seq<CandidateModel>, StoreErrorModel>(Seq::empty()),
                Ok(Some(stored)) => if stored != expected {
                    r == Err::<Seq<CandidateModel>, StoreErrorModel>(
                        contract_changed(stored, expected),
                    )
                } else if probe.len() != stored.dim {
                    r == Err::<Seq<CandidateModel>, StoreErrorModel>(
                        probe_width_wrong(probe.len(), s, stored.dim),
                    )
                } else {
                    pool_read(t, s, stored.dim, r)
                },
            },
        }
    }
}

/// The vectors that a probe may be compared with, where the caller says which contract it embeds
/// by.
pub fn vector_candidates_checked(
    t: &Tables,
    session: &SessionId,
    probe: &Vec<u32>,
    expected: &EmbeddingContract,
    limit: usize,
    max: usize,
) -> (r: Result<Vec<VectorCandidate>, StoreError>)
    requires
        t.wf(),
    ensures
        pool_answer(
            t@,
            session@,
            probe@,
            expected@,
            limit as nat,
            max as nat,
            candidates_seen(r),
        ),
{
    match validate_vector_candidate_limit(limit, max) {
        Ok(()) => {},
        Err(e) => {
            return Err(e);
        },
    }
    let none: Vec<VectorCandidate> = Vec::new();
    proof {
        assert(candidates_of(none@) =~= Seq::empty());
    }
    if limit == 0 {
        return Ok(none);
    }
    match ensure_is_an_embedding(probe) {
        Ok(()) => {},
        Err(e) => {
            return Err(e);
        },
    }
    let row = match t.sessions.get(&key1(session.as_str())) {
        Some(row) => row,
        None => {
            return Ok(none);
        },
    };
    proof {
        assert(SessionRow::key_of(row@)[0] == session@);
    }
    let stored = match session_embedding_from_parts(
        clone_opt(&row.embedding_kind),
        clone_opt(&row.embedding_model),
        row.embedding_dim,
        session.as_str(),
    ) {
        Ok(Some(c)) => c,
        Ok(None) => {
            return Ok(none);
        },
        Err(e) => {
            return Err(e);
        },
    };
    match stored.ensure_compatible(expected) {
        Ok(()) => {},
        Err(err) => {
            let text = err.to_string();
            let s = joined(
                "vector candidate lookup refused after embedding contract changed: ",
                text.as_str(),
                "",
            );
            proof {
                reveal_strlit("vector candidate lookup refused after embedding contract changed: ");
                reveal_strlit("config: ");
                reveal_strlit(
                    "vector candidate lookup refused after embedding contract changed: config: ",
                );
                assert(s@
                    =~= "vector candidate lookup refused after embedding contract changed: config: "@
                    + incompatible_text(stored@, expected@));
            }
            return Err(StoreError::Invariant(s));
        },
    }
    if probe.len() != stored.dim {
        let mut s = "query embedding has ".to_owned();
        s.append(decimal_usize(probe.len()).as_str());
        s.append(" dimensions but session ");
        s.append(session.as_str());
        s.append(" stores vectors of ");
        s.append(decimal_usize(stored.dim).as_str());
        s.append(
            " (the session's durable embedding contract is the authority here, not the process-wide vector_dimensions())",
        );
        return Err(StoreError::Invariant(s));
    }
    select_session_vectors(t, session, stored.dim)
}

/// What a probe may be compared with where the caller goes by the session's own contract: a refusal
/// where more is asked for than may be; nothing where nothing is asked for; otherwise the session
/// is read whole first.
pub open spec fn stored_pool_answer(
    t: TablesModel,
    s: Seq<char>,
    probe: Seq<u32>,
    limit: nat,
    max: nat,
    loaded: Result<SnapshotModel, StoreErrorModel>,
    r: Result<Seq<CandidateModel>, StoreErrorModel>,
) -> bool {
    if limit > max {
        r == Err::<Seq<CandidateModel>, StoreErrorModel>(limit_too_large(limit, max))
    } else if limit == 0 {
        r == Ok::<Seq<CandidateModel>, StoreErrorModel>(Seq::empty())
    } else {
        match loaded {
            Err(StoreErrorModel::SessionNotFound(_)) => r == Ok::<
                Seq<CandidateModel>,
                StoreErrorModel,
            >(Seq::empty()),
            Err(e) => r == Err::<Seq<CandidateModel>, StoreErrorModel>(e),
            Ok(snapshot) => match snapshot.embedding {
                None => r == Ok::<Seq<CandidateModel>, StoreErrorModel>(Seq::empty()),
                Some(c) => pool_answer(t, s, probe, c, limit, max, r),
            },
        }
    }
}

/// The vectors that a probe may be compared with, by the session's own contract.
pub fn vector_candidates(
    t: &Tables,
    session: &SessionId,
    probe: &Vec<u32>,
    limit: usize,
    max: usize,
) -> (r: Result<Vec<VectorCandidate>, StoreError>)
    requires
        t.wf(),
    ensures
        limit > max ==> candidates_seen(r) == Err::<Seq<CandidateModel>, StoreErrorModel>(
            limit_too_large(limit as nat, max as nat),
        ),
        limit == 0 ==> candidates_seen(r) == Ok::<Seq<CandidateModel>, StoreErrorModel>(
            Seq::empty(),
        ),
        0 < limit <= max ==> exists|loaded: Result<SnapshotModel, StoreErrorModel>| #[trigger]
            loads_as(t@, session@, loaded) && stored_pool_answer(
                t@,
                session@,
                probe@,
                limit as nat,
                max as nat,
                loaded,
                candidates_seen(r),
            ),
{
    match validate_vector_candidate_limit(limit, max) {
        Ok(()) => {},
        Err(e) => {
            return Err(e);
        },
    }
    let none: Vec<VectorCandidate> = Vec::new();
    proof {
        assert(candidates_of(none@) =~= Seq::empty());
    }
    if limit == 0 {
        return Ok(none);
    }
    let loaded = load_session(t, session);
    assert(loads_as(t@, session@, snapshot_seen(loaded)));
    match loaded {
        Ok(snapshot) => match snapshot.embedding {
            Some(stored) => vector_candidates_checked(t, session, probe, &stored, limit, max),
            None => Ok(none),
        },
        Err(StoreError::SessionNotFound(_)) => Ok(none),
        Err(e) => Err(e),
    }
}

/// Tests the width that a store is told its vectors have.
pub fn check_vector_dim(dim: usize) -> (r: Result<usize, StoreError>)
    ensures
        match r {
            Ok(d) => dim > 0 && d == dim,
            Err(e) => dim == 0 && e@ == StoreErrorModel::Invariant(
                "SqliteStore vector width must be > 0"@,
            ),
        },
{
    if dim == 0 {
        Err(StoreError::Invariant("SqliteStore vector width must be > 0".to_owned()))
    } else {
        Ok(dim)
    }
}

/// Something found, with the number by which it is ordered.
#[derive(Clone, Copy, Debug, PartialEq, Eq, Structural)]
pub struct Ranked {
    pub score: i64,
    pub id: NodeId,
}

/// Whether something found comes before another: a higher score, or the same and the smaller
/// identifier.
pub open spec fn ranks_before(a: Ranked, b: Ranked) -> bool {
    a.score > b.score || (a.score == b.score && a.id.0 <= b.id.0)
}

/// That what was found stands in its order.
pub open spec fn in_rank_order(v: Seq<Ranked>) -> bool {
    forall|i: int, j: int|
        0 <= i < j < v.len() ==> ranks_before(#[trigger] v[i], #[trigger] v[j])
}

/// Orders what was found, the best first, and keeps as much of it as a limit allows.
pub fn rank_by_score(found: Vec<Ranked>, limit: usize) -> (r: Vec<Ranked>)
    ensures
        exists|sorted: Seq<Ranked>|
            #![trigger in_rank_order(sorted)]
            sorted.to_multiset() == found@.to_multiset() && in_rank_order(sorted) && r@ == at_most(
                sorted,
                limit as nat,
            ),
{
    let mut out: Vec<Ranked> = Vec::new();
    let mut i: usize = 0;
    proof {
        assert(found@.take(0) =~= Seq::empty());
    }
    while i < found.len()
        invariant
            i <= found@.len(),
            in_rank_order(out@),
            out@.to_multiset() == found@.take(i as int).to_multiset(),
        decreases found@.len() - i,
    {
        let x = found[i];
        let mut at: usize = 0;
        while at < out.len() && (out[at].score > x.score || (out[at].score == x.score
            && out[at].id.0 <= x.id.0))
            invariant
                at <= out@.len(),
                forall|j: int| 0 <= j < at ==> ranks_before(#[trigger] out@[j], x),
            decreases out@.len() - at,
        {
            at = at + 1;
        }
        let ghost before = out@;
        out.insert(at, x);
        proof {
            vstd::seq_lib::to_multiset_insert(before, at as int, x);
            let upto = found@.take(i as int);
            vstd::seq_lib::to_multiset_build(upto, x);
            assert(found@.take(i + 1) =~= upto.push(x));
            let after = out@;
            assert forall|a: int, b: int| 0 <= a < b < after.len() implies ranks_before(
                #[trigger] after[a],
                #[trigger] after[b],
            ) by {
                let a1 = if a < at { a } else { a - 1 };
                let b1 = if b < at { b } else { b - 1 };
                if a == at {
                    assert(after[b] == before[b1]);
                    if b1 > at {
                        assert(ranks_before(before[at as int], before[b1]));
                    }
                } else if b == at {
                    assert(after[a] == before[a1]);
                } else {
                    assert(after[a] == before[a1]);
                    assert(after[b] == before[b1]);
                }
            }
        }
        i = i + 1;
    }
    let ghost sorted = out@;
    proof {
        assert(found@.take(found@.len() as int) =~= found@);
    }
    if limit < out.len() {
        out.truncate(limit);
    }
    proof {
        assert(in_rank_order(sorted));
        assert(out@ =~= at_most(sorted, limit as nat));
    }
    out
}

} // verus!
