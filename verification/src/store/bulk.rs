//! Concepts that are written together: their widths are tested first, then their vectors, then
//! their keys, then their origins.

use crate::store::rows::ConceptModel;
use crate::store::session::concepts_of;
use crate::store::tables::{
    concept_put, concept_upserted, enforce_concept_origin, enforce_concept_vector,
    enforce_concept_vector_width, origin_refused, outcome, put_concept, sound, vector_refused,
    width_refused, Tables, TablesModel,
};
use crate::types::{Concept, StoreError, StoreErrorModel};
use vstd::prelude::*;

verus! {

/// How many concepts are written together at most.
pub const CONCEPTS_TOGETHER: usize = 60;

/// Concepts, as values.
pub open spec fn concept_models(v: Seq<&Concept>) -> Seq<ConceptModel> {
    Seq::new(v.len(), |i: int| v[i]@)
}

/// The first refusal among concepts.
pub open spec fn first_refusal(
    v: Seq<ConceptModel>,
    refusal: spec_fn(ConceptModel) -> Option<StoreErrorModel>,
) -> Option<StoreErrorModel>
    decreases v.len(),
{
    if v.len() == 0 {
        None
    } else {
        match first_refusal(v.drop_last(), refusal) {
            Some(e) => Some(e),
            None => refusal(v.last()),
        }
    }
}

/// What putting the rows of concepts does, one after the other. The first key that is taken ends
/// it.
pub open spec fn all_put(t: TablesModel, v: Seq<ConceptModel>) -> Result<
    TablesModel,
    StoreErrorModel,
>
    decreases v.len(),
{
    if v.len() == 0 {
        Ok(t)
    } else {
        match all_put(t, v.drop_last()) {
            Err(e) => Err(e),
            Ok(t) => concept_put(t, v.last()),
        }
    }
}

/// What writing concepts together does. A width that is wrong anywhere among them refuses them
/// all, before any vector that is no embedding; that before any key that is taken; and that before
/// any origin that is missing.
pub open spec fn written_together(t: TablesModel, v: Seq<ConceptModel>) -> Result<
    TablesModel,
    StoreErrorModel,
> {
    match first_refusal(v, |c: ConceptModel| width_refused(t, c)) {
        Some(e) => Err(e),
        None => match first_refusal(v, |c: ConceptModel| vector_refused(c)) {
            Some(e) => Err(e),
            None => match all_put(t, v) {
                Err(e) => Err(e),
                Ok(u) => match first_refusal(v, |c: ConceptModel| origin_refused(u, c)) {
                    Some(e) => Err(e),
                    None => Ok(u),
                },
            },
        },
    }
}

/// What the upsert of concepts does, each on its own.
pub open spec fn written_in_turn(t: TablesModel, v: Seq<ConceptModel>) -> Result<
    TablesModel,
    StoreErrorModel,
>
    decreases v.len(),
{
    if v.len() == 0 {
        Ok(t)
    } else {
        match written_in_turn(t, v.drop_last()) {
            Err(e) => Err(e),
            Ok(t) => concept_upserted(t, v.last()),
        }
    }
}

proof fn lemma_no_refusal(
    v: Seq<ConceptModel>,
    refusal: spec_fn(ConceptModel) -> Option<StoreErrorModel>,
)
    ensures
        first_refusal(v, refusal) is None <==> forall|i: int|
            0 <= i < v.len() ==> refusal(#[trigger] v[i]) is None,
    decreases v.len(),
{
    if v.len() > 0 {
        let less = v.drop_last();
        lemma_no_refusal(less, refusal);
        assert(v.last() == v[v.len() - 1]);
        if first_refusal(v, refusal) is None {
            assert forall|i: int| 0 <= i < v.len() implies refusal(#[trigger] v[i]) is None by {
                if i < less.len() {
                    assert(less[i] == v[i]);
                }
            }
        }
        if forall|i: int| 0 <= i < v.len() ==> refusal(#[trigger] v[i]) is None {
            assert forall|i: int| 0 <= i < less.len() implies refusal(#[trigger] less[i])
                is None by {
                assert(less[i] == v[i]);
            }
        }
    }
}

proof fn lemma_refusal_stays(
    v: Seq<ConceptModel>,
    refusal: spec_fn(ConceptModel) -> Option<StoreErrorModel>,
    k: int,
)
    requires
        0 <= k <= v.len(),
        first_refusal(v.take(k), refusal) is Some,
    ensures
        first_refusal(v, refusal) == first_refusal(v.take(k), refusal),
    decreases v.len() - k,
{
    if k == v.len() {
        assert(v.take(k) =~= v);
    } else {
        assert(v.take(k + 1).drop_last() =~= v.take(k));
        lemma_refusal_stays(v, refusal, k + 1);
    }
}

proof fn lemma_put_stops(t: TablesModel, v: Seq<ConceptModel>, k: int)
    requires
        0 <= k <= v.len(),
        all_put(t, v.take(k)) is Err,
    ensures
        all_put(t, v) == all_put(t, v.take(k)),
    decreases v.len() - k,
{
    if k == v.len() {
        assert(v.take(k) =~= v);
    } else {
        assert(v.take(k + 1).drop_last() =~= v.take(k));
        lemma_put_stops(t, v, k + 1);
    }
}

proof fn lemma_put_is_in_turn(t: TablesModel, v: Seq<ConceptModel>)
    ensures
        all_put(t, v) matches Ok(u) ==> u == (TablesModel { concepts: u.concepts, ..t }),
        written_in_turn(t, v) is Ok ==> written_in_turn(t, v) == all_put(t, v),
        written_in_turn(t, v) is Ok <==> all_put(t, v) is Ok && forall|i: int|
            #![trigger v[i]]
            0 <= i < v.len() ==> width_refused(t, v[i]) is None && vector_refused(v[i]) is None
                && origin_refused(t, v[i]) is None,
    decreases v.len(),
{
    if v.len() > 0 {
        let less = v.drop_last();
        lemma_put_is_in_turn(t, less);
        let c = v.last();
        assert(c == v[v.len() - 1]);
        if written_in_turn(t, v) is Ok {
            let u = written_in_turn(t, less)->Ok_0;
            assert(width_refused(u, c) == width_refused(t, c));
            assert(origin_refused(u, c) == origin_refused(t, c));
            assert forall|i: int|
                #![trigger v[i]]
                0 <= i < v.len() implies width_refused(t, v[i]) is None && vector_refused(v[i])
                is None && origin_refused(t, v[i]) is None by {
                if i < less.len() {
                    assert(less[i] == v[i]);
                }
            }
        }
        if all_put(t, v) is Ok && forall|i: int|
            #![trigger v[i]]
            0 <= i < v.len() ==> width_refused(t, v[i]) is None && vector_refused(v[i]) is None
                && origin_refused(t, v[i]) is None {
            assert forall|i: int|
                #![trigger less[i]]
                0 <= i < less.len() implies width_refused(t, less[i]) is None && vector_refused(
                less[i],
            ) is None && origin_refused(t, less[i]) is None by {
                assert(less[i] == v[i]);
            }
            let u = all_put(t, less)->Ok_0;
            assert(width_refused(u, c) == width_refused(t, c));
            assert(origin_refused(u, c) == origin_refused(t, c));
        }
    }
}

/// Writing concepts together succeeds exactly where writing each on its own does, and leaves the
/// same tables. Only which of several faults is reported differs.
pub proof fn together_is_in_turn(t: TablesModel, v: Seq<ConceptModel>)
    ensures
        written_together(t, v) is Ok <==> written_in_turn(t, v) is Ok,
        written_together(t, v) is Ok ==> written_together(t, v) == written_in_turn(t, v),
{
    let widths = |c: ConceptModel| width_refused(t, c);
    let vectors = |c: ConceptModel| vector_refused(c);
    lemma_no_refusal(v, widths);
    lemma_no_refusal(v, vectors);
    lemma_put_is_in_turn(t, v);
    if all_put(t, v) is Ok {
        let u = all_put(t, v)->Ok_0;
        let origins = |c: ConceptModel| origin_refused(u, c);
        lemma_no_refusal(v, origins);
        assert forall|i: int| 0 <= i < v.len() implies origins(#[trigger] v[i]) == origin_refused(
            t,
            v[i],
        ) by {}
        if written_together(t, v) is Ok {
            assert forall|i: int|
                #![trigger v[i]]
                0 <= i < v.len() implies width_refused(t, v[i]) is None && vector_refused(v[i])
                is None && origin_refused(t, v[i]) is None by {
                assert(widths(v[i]) is None);
                assert(vectors(v[i]) is None);
                assert(origins(v[i]) is None);
            }
        }
        if written_in_turn(t, v) is Ok {
            assert forall|i: int| 0 <= i < v.len() implies widths(#[trigger] v[i]) is None by {}
            assert forall|i: int| 0 <= i < v.len() implies vectors(#[trigger] v[i]) is None by {}
            assert forall|i: int| 0 <= i < v.len() implies origins(#[trigger] v[i]) is None by {}
        }
    }
}

fn test_widths(t: &Tables, v: &Vec<&Concept>) -> (r: Result<(), StoreError>)
    requires
        t.wf(),
    ensures
        match r {
            Ok(()) => first_refusal(
                concept_models(v@),
                |c: ConceptModel| width_refused(t@, c),
            ) is None,
            Err(e) => first_refusal(
                concept_models(v@),
                |c: ConceptModel| width_refused(t@, c),
            ) == Some(e@),
        },
{
    let ghost all = concept_models(v@);
    let ghost refusal = |c: ConceptModel| width_refused(t@, c);
    let mut i: usize = 0;
    proof {
        assert(all.take(0) =~= Seq::empty());
    }
    while i < v.len()
        invariant
            t.wf(),
            i <= v@.len(),
            all == concept_models(v@),
            refusal == (|c: ConceptModel| width_refused(t@, c)),
            first_refusal(all.take(i as int), refusal) is None,
        decreases v@.len() - i,
    {
        proof {
            assert(all.take(i + 1).drop_last() =~= all.take(i as int));
            assert(all.take(i + 1).last() == v@[i as int]@);
        }
        match enforce_concept_vector_width(t, v[i]) {
            Ok(()) => {},
            Err(e) => {
                proof {
                    lemma_refusal_stays(all, refusal, i + 1);
                }
                return Err(e);
            },
        }
        i = i + 1;
    }
    proof {
        assert(all.take(all.len() as int) =~= all);
    }
    Ok(())
}

fn test_vectors(v: &Vec<&Concept>) -> (r: Result<(), StoreError>)
    ensures
        match r {
            Ok(()) => first_refusal(
                concept_models(v@),
                |c: ConceptModel| vector_refused(c),
            ) is None,
            Err(e) => first_refusal(
                concept_models(v@),
                |c: ConceptModel| vector_refused(c),
            ) == Some(e@),
        },
{
    let ghost all = concept_models(v@);
    let ghost refusal = |c: ConceptModel| vector_refused(c);
    let mut i: usize = 0;
    proof {
        assert(all.take(0) =~= Seq::empty());
    }
    while i < v.len()
        invariant
            i <= v@.len(),
            all == concept_models(v@),
            refusal == (|c: ConceptModel| vector_refused(c)),
            first_refusal(all.take(i as int), refusal) is None,
        decreases v@.len() - i,
    {
        proof {
            assert(all.take(i + 1).drop_last() =~= all.take(i as int));
            assert(all.take(i + 1).last() == v@[i as int]@);
        }
        match enforce_concept_vector(v[i]) {
            Ok(()) => {},
            Err(e) => {
                proof {
                    lemma_refusal_stays(all, refusal, i + 1);
                }
                return Err(e);
            },
        }
        i = i + 1;
    }
    proof {
        assert(all.take(all.len() as int) =~= all);
    }
    Ok(())
}

fn test_origins(t: &Tables, v: &Vec<&Concept>) -> (r: Result<(), StoreError>)
    requires
        t.wf(),
    ensures
        match r {
            Ok(()) => first_refusal(
                concept_models(v@),
                |c: ConceptModel| origin_refused(t@, c),
            ) is None,
            Err(e) => first_refusal(
                concept_models(v@),
                |c: ConceptModel| origin_refused(t@, c),
            ) == Some(e@),
        },
{
    let ghost all = concept_models(v@);
    let ghost refusal = |c: ConceptModel| origin_refused(t@, c);
    let mut i: usize = 0;
    proof {
        assert(all.take(0) =~= Seq::empty());
    }
    while i < v.len()
        invariant
            t.wf(),
            i <= v@.len(),
            all == concept_models(v@),
            refusal == (|c: ConceptModel| origin_refused(t@, c)),
            first_refusal(all.take(i as int), refusal) is None,
        decreases v@.len() - i,
    {
        proof {
            assert(all.take(i + 1).drop_last() =~= all.take(i as int));
            assert(all.take(i + 1).last() == v@[i as int]@);
        }
        match enforce_concept_origin(t, v[i]) {
            Ok(()) => {},
            Err(e) => {
                proof {
                    lemma_refusal_stays(all, refusal, i + 1);
                }
                return Err(e);
            },
        }
        i = i + 1;
    }
    proof {
        assert(all.take(all.len() as int) =~= all);
    }
    Ok(())
}

fn put_concepts(t: Tables, v: &Vec<&Concept>) -> (r: Result<Tables, StoreError>)
    requires
        t.wf(),
    ensures
        outcome(r) == all_put(t@, concept_models(v@)),
        sound(r),
{
    let ghost start = t@;
    let ghost all = concept_models(v@);
    let mut cur = t;
    let mut i: usize = 0;
    proof {
        assert(all.take(0) =~= Seq::empty());
    }
    while i < v.len()
        invariant
            i <= v@.len(),
            cur.wf(),
            start == t@,
            all == concept_models(v@),
            all_put(start, all.take(i as int)) == Ok::<TablesModel, StoreErrorModel>(cur@),
        decreases v@.len() - i,
    {
        proof {
            assert(all.take(i + 1).drop_last() =~= all.take(i as int));
            assert(all.take(i + 1).last() == v@[i as int]@);
        }
        cur = match put_concept(cur, v[i]) {
            Ok(t) => t,
            Err(e) => {
                proof {
                    lemma_put_stops(start, all, i + 1);
                }
                return Err(e);
            },
        };
        i = i + 1;
    }
    proof {
        assert(all.take(all.len() as int) =~= all);
    }
    Ok(cur)
}

/// Writes concepts together.
pub fn upsert_together(t: Tables, v: &Vec<&Concept>) -> (r: Result<Tables, StoreError>)
    requires
        t.wf(),
    ensures
        outcome(r) == written_together(t@, concept_models(v@)),
        sound(r),
{
    match test_widths(&t, v) {
        Ok(()) => {},
        Err(e) => {
            return Err(e);
        },
    }
    match test_vectors(v) {
        Ok(()) => {},
        Err(e) => {
            return Err(e);
        },
    }
    let t = match put_concepts(t, v) {
        Ok(t) => t,
        Err(e) => {
            return Err(e);
        },
    };
    match test_origins(&t, v) {
        Ok(()) => Ok(t),
        Err(e) => Err(e),
    }
}

/// What the upsert of concepts does: as many together as may be, then the next.
pub open spec fn all_concepts(t: TablesModel, v: Seq<ConceptModel>) -> Result<
    TablesModel,
    StoreErrorModel,
>
    decreases v.len(),
{
    if v.len() == 0 {
        Ok(t)
    } else {
        let n = if v.len() < CONCEPTS_TOGETHER { v.len() as int } else { CONCEPTS_TOGETHER as int };
        match written_together(t, v.take(n)) {
            Err(e) => Err(e),
            Ok(u) => all_concepts(u, v.skip(n)),
        }
    }
}

/// Puts concepts in, or changes those that are there.
pub fn upsert_concepts(t: Tables, v: &Vec<Concept>) -> (r: Result<Tables, StoreError>)
    requires
        t.wf(),
    ensures
        outcome(r) == all_concepts(t@, concepts_of(v@)),
        sound(r),
{
    let ghost start = t@;
    let ghost all = concepts_of(v@);
    let mut cur = t;
    let mut at: usize = 0;
    proof {
        assert(all.skip(0) =~= all);
    }
    while at < v.len()
        invariant
            at <= v@.len(),
            cur.wf(),
            start == t@,
            all == concepts_of(v@),
            all_concepts(start, all) == all_concepts(cur@, all.skip(at as int)),
        decreases v@.len() - at,
    {
        let ghost rest = all.skip(at as int);
        let mut some: Vec<&Concept> = Vec::new();
        let mut n: usize = 0;
        while n < CONCEPTS_TOGETHER && n < v.len() - at
            invariant
                at <= v@.len(),
                n <= CONCEPTS_TOGETHER,
                n <= v@.len() - at,
                all == concepts_of(v@),
                rest == all.skip(at as int),
                concept_models(some@) == rest.take(n as int),
            decreases CONCEPTS_TOGETHER - n,
        {
            let ghost before = some@;
            some.push(&v[at + n]);
            n = n + 1;
            proof {
                assert(concept_models(some@) =~= concept_models(before).push(v@[at + n - 1]@));
                assert(rest.take(n as int) =~= rest.take(n - 1).push(rest[n - 1]));
            }
        }
        cur = match upsert_together(cur, &some) {
            Ok(t) => t,
            Err(e) => {
                return Err(e);
            },
        };
        proof {
            assert(rest.skip(n as int) =~= all.skip(at + n));
        }
        at = at + n;
    }
    Ok(cur)
}

} // verus!
