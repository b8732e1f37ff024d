//! The tables and columns that the store needs, which of them an existing database lacks, and what
//! is added to one that was made before a column was.

use crate::text::texts;
use crate::types::{joined, StoreError, StoreErrorModel};
use vstd::prelude::*;
use vstd::string::*;

verus! {

/// A table's name and its columns.
#[derive(Debug)]
pub struct TableShape {
    pub name: String,
    pub columns: Vec<String>,
}

/// A table's name and its columns, as values.
pub struct ShapeModel {
    pub name: Seq<char>,
    pub columns: Seq<Seq<char>>,
}

impl View for TableShape {
    type V = ShapeModel;

    open spec fn view(&self) -> ShapeModel {
        ShapeModel { name: self.name@, columns: texts(self.columns@) }
    }
}

/// The views of tables' shapes.
pub open spec fn shapes(v: Seq<TableShape>) -> Seq<ShapeModel> {
    Seq::new(v.len(), |i: int| v[i]@)
}

/// Whether a table is among some.
pub open spec fn has_table(present: Seq<ShapeModel>, name: Seq<char>) -> bool {
    exists|i: int| 0 <= i < present.len() && (#[trigger] present[i]).name == name
}

/// Whether a table of that name among some has a column.
pub open spec fn has_column(present: Seq<ShapeModel>, name: Seq<char>, column: Seq<char>) -> bool {
    exists|i: int|
        0 <= i < present.len() && (#[trigger] present[i]).name == name
            && present[i].columns.contains(column)
}

/// The names of the tables that are not there.
pub open spec fn missing_tables(required: Seq<ShapeModel>, present: Seq<ShapeModel>) -> Seq<
    Seq<char>,
>
    decreases required.len(),
{
    if required.len() == 0 {
        Seq::empty()
    } else {
        let rest = missing_tables(required.drop_last(), present);
        if has_table(present, required.last().name) {
            rest
        } else {
            rest.push(required.last().name)
        }
    }
}

/// The columns of a table that are not there.
pub open spec fn missing_columns(
    name: Seq<char>,
    columns: Seq<Seq<char>>,
    present: Seq<ShapeModel>,
) -> Seq<Seq<char>>
    decreases columns.len(),
{
    if columns.len() == 0 {
        Seq::empty()
    } else {
        let rest = missing_columns(name, columns.drop_last(), present);
        if has_column(present, name, columns.last()) {
            rest
        } else {
            rest.push(columns.last())
        }
    }
}

/// Names with commas between them.
pub open spec fn with_commas(names: Seq<Seq<char>>) -> Seq<char>
    decreases names.len(),
{
    if names.len() == 0 {
        Seq::empty()
    } else if names.len() == 1 {
        names[0]
    } else {
        with_commas(names.drop_last()) + ", "@ + names.last()
    }
}

/// The refusal of a database that lacks tables.
pub open spec fn unprovisioned_store(missing: Seq<Seq<char>>) -> StoreErrorModel {
    StoreErrorModel::Capability(
        "sqlite store is not provisioned: missing table(s) "@ + with_commas(missing)
            + " — run `lambo provision`"@,
    )
}

/// The refusal of a database whose table lacks columns.
pub open spec fn unprovisioned_column(table: Seq<char>, missing: Seq<Seq<char>>) -> StoreErrorModel {
    StoreErrorModel::Capability(
        "sqlite store is not provisioned: table "@ + table + " is missing column(s) "@
            + with_commas(missing) + " — run `lambo provision`"@,
    )
}

/// The first table that lacks columns, and the refusal of it.
pub open spec fn column_refusal(required: Seq<ShapeModel>, present: Seq<ShapeModel>) -> Option<
    StoreErrorModel,
>
    decreases required.len(),
{
    if required.len() == 0 {
        None
    } else {
        match column_refusal(required.drop_last(), present) {
            Some(e) => Some(e),
            None => {
                let t = required.last();
                let missing = missing_columns(t.name, t.columns, present);
                if missing.len() == 0 {
                    None
                } else {
                    Some(unprovisioned_column(t.name, missing))
                }
            },
        }
    }
}

/// Why a database is refused, if it is: it lacks tables, or a table lacks columns.
pub open spec fn preflight_refusal(required: Seq<ShapeModel>, present: Seq<ShapeModel>) -> Option<
    StoreErrorModel,
> {
    let missing = missing_tables(required, present);
    if missing.len() > 0 {
        Some(unprovisioned_store(missing))
    } else {
        column_refusal(required, present)
    }
}

fn holds(v: &Vec<String>, s: &String) -> (r: bool)
    ensures
        r == texts(v@).contains(s@),
{
    let mut i: usize = 0;
    while i < v.len()
        invariant
            i <= v@.len(),
            forall|j: int| 0 <= j < i ==> (#[trigger] texts(v@)[j]) != s@,
        decreases v@.len() - i,
    {
        if v[i] == *s {
            proof {
                assert(texts(v@)[i as int] == s@);
            }
            return true;
        }
        proof {
            assert(texts(v@)[i as int] == v@[i as int]@);
        }
        i = i + 1;
    }
    false
}

fn table_is_there(present: &Vec<TableShape>, name: &String) -> (r: bool)
    ensures
        r == has_table(shapes(present@), name@),
{
    let mut i: usize = 0;
    while i < present.len()
        invariant
            i <= present@.len(),
            forall|j: int| 0 <= j < i ==> (#[trigger] shapes(present@)[j]).name != name@,
        decreases present@.len() - i,
    {
        if present[i].name == *name {
            proof {
                assert(shapes(present@)[i as int].name == name@);
            }
            return true;
        }
        proof {
            assert(shapes(present@)[i as int] == present@[i as int]@);
        }
        i = i + 1;
    }
    false
}

/// Whether a table of that name has a column.
pub fn column_is_there(present: &Vec<TableShape>, name: &String, column: &String) -> (r: bool)
    ensures
        r == has_column(shapes(present@), name@, column@),
{
    let mut i: usize = 0;
    while i < present.len()
        invariant
            i <= present@.len(),
            forall|j: int|
                0 <= j < i ==> !((#[trigger] shapes(present@)[j]).name == name@ && shapes(
                    present@,
                )[j].columns.contains(column@)),
        decreases present@.len() - i,
    {
        proof {
            assert(shapes(present@)[i as int] == present@[i as int]@);
        }
        if present[i].name == *name && holds(&present[i].columns, column) {
            return true;
        }
        i = i + 1;
    }
    false
}

fn comma_text(names: &Vec<String>) -> (s: String)
    ensures
        s@ == with_commas(texts(names@)),
{
    let ghost all = texts(names@);
    let mut s = "".to_owned();
    let mut i: usize = 0;
    proof {
        reveal_strlit("");
        assert(all.take(0) =~= Seq::empty());
        assert(s@ =~= with_commas(all.take(0)));
    }
    while i < names.len()
        invariant
            all == texts(names@),
            i <= names@.len(),
            s@ == with_commas(all.take(i as int)),
        decreases names@.len() - i,
    {
        proof {
            assert(all.take(i + 1).drop_last() =~= all.take(i as int));
            assert(all.take(i + 1).last() == names@[i as int]@);
        }
        if i > 0 {
            s.append(", ");
        }
        let ghost before = s@;
        s.append(names[i].as_str());
        proof {
            if i == 0 {
                assert(all.take(0) =~= Seq::empty());
                assert(s@ =~= names@[0]@);
                assert(all.take(1)[0] == names@[0]@);
            }
        }
        i = i + 1;
    }
    proof {
        assert(all.take(all.len() as int) =~= all);
    }
    s
}

fn lacking_tables(required: &Vec<TableShape>, present: &Vec<TableShape>) -> (v: Vec<String>)
    ensures
        texts(v@) == missing_tables(shapes(required@), shapes(present@)),
{
    let ghost all = shapes(required@);
    let mut v: Vec<String> = Vec::new();
    let mut i: usize = 0;
    proof {
        assert(all.take(0) =~= Seq::empty());
        assert(texts(v@) =~= Seq::empty());
    }
    while i < required.len()
        invariant
            all == shapes(required@),
            i <= required@.len(),
            texts(v@) == missing_tables(all.take(i as int), shapes(present@)),
        decreases required@.len() - i,
    {
        let ghost before = v@;
        proof {
            assert(all.take(i + 1).drop_last() =~= all.take(i as int));
            assert(all.take(i + 1).last() == required@[i as int]@);
        }
        if !table_is_there(present, &required[i].name) {
            v.push(required[i].name.clone());
            proof {
                assert(texts(v@) =~= texts(before).push(required@[i as int].name@));
            }
        }
        i = i + 1;
    }
    proof {
        assert(all.take(all.len() as int) =~= all);
    }
    v
}

fn lacking_columns(table: &TableShape, present: &Vec<TableShape>) -> (v: Vec<String>)
    ensures
        texts(v@) == missing_columns(table@.name, table@.columns, shapes(present@)),
{
    let ghost all = table@.columns;
    let mut v: Vec<String> = Vec::new();
    let mut i: usize = 0;
    proof {
        assert(all.take(0) =~= Seq::empty());
        assert(texts(v@) =~= Seq::empty());
    }
    while i < table.columns.len()
        invariant
            all == texts(table.columns@),
            i <= table.columns@.len(),
            texts(v@) == missing_columns(table@.name, all.take(i as int), shapes(present@)),
        decreases table.columns@.len() - i,
    {
        let ghost before = v@;
        proof {
            assert(all.take(i + 1).drop_last() =~= all.take(i as int));
            assert(all.take(i + 1).last() == table.columns@[i as int]@);
        }
        if !column_is_there(present, &table.name, &table.columns[i]) {
            v.push(table.columns[i].clone());
            proof {
                assert(texts(v@) =~= texts(before).push(table.columns@[i as int]@));
            }
        }
        i = i + 1;
    }
    proof {
        assert(all.take(all.len() as int) =~= all);
    }
    v
}

proof fn lemma_refusal_stays(required: Seq<ShapeModel>, present: Seq<ShapeModel>, k: int)
    requires
        0 <= k <= required.len(),
        column_refusal(required.take(k), present) is Some,
    ensures
        column_refusal(required, present) == column_refusal(required.take(k), present),
    decreases required.len() - k,
{
    if k == required.len() {
        assert(required.take(k) =~= required);
    } else {
        assert(required.take(k + 1).drop_last() =~= required.take(k));
        lemma_refusal_stays(required, present, k + 1);
    }
}

/// Tests a database for the tables and columns that are required. The first lack is named, with
/// what mends it.
pub fn preflight_schema(required: &Vec<TableShape>, present: &Vec<TableShape>) -> (r: Result<
    (),
    StoreError,
>)
    ensures
        match r {
            Ok(()) => preflight_refusal(shapes(required@), shapes(present@)) is None,
            Err(e) => preflight_refusal(shapes(required@), shapes(present@)) == Some(e@),
        },
{
    let missing = lacking_tables(required, present);
    proof {
        assert(texts(missing@).len() == missing@.len());
    }
    if missing.len() > 0 {
        return Err(
            StoreError::Capability(
                joined(
                    "sqlite store is not provisioned: missing table(s) ",
                    comma_text(&missing).as_str(),
                    " — run `lambo provision`",
                ),
            ),
        );
    }
    let ghost all = shapes(required@);
    let mut i: usize = 0;
    proof {
        assert(all.take(0) =~= Seq::empty());
    }
    while i < required.len()
        invariant
            all == shapes(required@),
            i <= required@.len(),
            column_refusal(all.take(i as int), shapes(present@)) is None,
            missing_tables(all, shapes(present@)).len() == 0,
        decreases required@.len() - i,
    {
        proof {
            assert(all.take(i + 1).drop_last() =~= all.take(i as int));
            assert(all.take(i + 1).last() == required@[i as int]@);
        }
        let missing = lacking_columns(&required[i], present);
        proof {
            assert(texts(missing@).len() == missing@.len());
        }
        if missing.len() > 0 {
            let mut s = "sqlite store is not provisioned: table ".to_owned();
            s.append(required[i].name.as_str());
            s.append(" is missing column(s) ");
            s.append(comma_text(&missing).as_str());
            s.append(" — run `lambo provision`");
            proof {
                lemma_refusal_stays(all, shapes(present@), i + 1);
            }
            return Err(StoreError::Capability(s));
        }
        i = i + 1;
    }
    proof {
        assert(all.take(all.len() as int) =~= all);
    }
    Ok(())
}

proof fn lemma_columns_there(
    name: Seq<char>,
    columns: Seq<Seq<char>>,
    present: Seq<ShapeModel>,
)
    ensures
        missing_columns(name, columns, present).len() == 0 <==> forall|c: int|
            0 <= c < columns.len() ==> has_column(present, name, #[trigger] columns[c]),
    decreases columns.len(),
{
    if columns.len() > 0 {
        let less = columns.drop_last();
        lemma_columns_there(name, less, present);
        assert(forall|c: int| 0 <= c < less.len() ==> less[c] == columns[c]);
        if missing_columns(name, columns, present).len() == 0 {
            assert forall|c: int| 0 <= c < columns.len() implies has_column(
                present,
                name,
                #[trigger] columns[c],
            ) by {
                if c < less.len() {
                    assert(less[c] == columns[c]);
                }
            }
        }
    }
}

proof fn lemma_tables_there(required: Seq<ShapeModel>, present: Seq<ShapeModel>)
    ensures
        missing_tables(required, present).len() == 0 <==> forall|i: int|
            0 <= i < required.len() ==> has_table(present, (#[trigger] required[i]).name),
    decreases required.len(),
{
    if required.len() > 0 {
        let less = required.drop_last();
        lemma_tables_there(less, present);
        if missing_tables(required, present).len() == 0 {
            assert forall|i: int| 0 <= i < required.len() implies has_table(
                present,
                (#[trigger] required[i]).name,
            ) by {
                if i < less.len() {
                    assert(less[i] == required[i]);
                }
            }
        } else {
            assert(forall|i: int| 0 <= i < less.len() ==> less[i] == required[i]);
        }
    }
}

proof fn lemma_no_refusal(required: Seq<ShapeModel>, present: Seq<ShapeModel>)
    ensures
        column_refusal(required, present) is None <==> forall|i: int, c: int|
            0 <= i < required.len() && 0 <= c < required[i].columns.len() ==> has_column(
                present,
                required[i].name,
                #[trigger] required[i].columns[c],
            ),
    decreases required.len(),
{
    if required.len() > 0 {
        let less = required.drop_last();
        let t = required.last();
        lemma_no_refusal(less, present);
        lemma_columns_there(t.name, t.columns, present);
        assert(forall|i: int| 0 <= i < less.len() ==> less[i] == required[i]);
        if column_refusal(required, present) is None {
            assert forall|i: int, c: int|
                0 <= i < required.len() && 0 <= c < required[i].columns.len() implies has_column(
                present,
                required[i].name,
                #[trigger] required[i].columns[c],
            ) by {
                if i < less.len() {
                    assert(has_column(present, less[i].name, less[i].columns[c]));
                }
            }
        } else if forall|i: int, c: int|
            0 <= i < required.len() && 0 <= c < required[i].columns.len() ==> has_column(
                present,
                required[i].name,
                #[trigger] required[i].columns[c],
            ) {
            assert forall|i: int, c: int|
                0 <= i < less.len() && 0 <= c < less[i].columns.len() implies has_column(
                present,
                less[i].name,
                #[trigger] less[i].columns[c],
            ) by {
                assert(has_column(present, required[i].name, required[i].columns[c]));
            }
            assert forall|c: int| 0 <= c < t.columns.len() implies has_column(
                present,
                t.name,
                #[trigger] t.columns[c],
            ) by {
                assert(has_column(
                    present,
                    required[required.len() - 1].name,
                    required[required.len() - 1].columns[c],
                ));
            }
        }
    }
}

/// A database passes exactly where it has every table and every column that is required.
pub proof fn only_a_complete_schema_passes(required: Seq<ShapeModel>, present: Seq<ShapeModel>)
    ensures
        preflight_refusal(required, present) is None <==> (forall|i: int|
            0 <= i < required.len() ==> has_table(present, (#[trigger] required[i]).name)) && (
        forall|i: int, c: int|
            0 <= i < required.len() && 0 <= c < required[i].columns.len() ==> has_column(
                present,
                required[i].name,
                #[trigger] required[i].columns[c],
            )),
{
    lemma_tables_there(required, present);
    lemma_no_refusal(required, present);
}

/// The tables and columns that the store needs.
pub open spec fn required_shapes() -> Seq<ShapeModel> {
    seq![
        ShapeModel {
            name: "canonization_events"@,
            columns: seq![
                "id"@, "session_id"@, "node_id"@, "from_status"@, "to_status"@, "blast_radius"@,
                "last_demotion_time"@, "occurred_at"@,
            ],
        },
        ShapeModel {
            name: "concepts"@,
            columns: seq![
                "id"@, "session_id"@, "content"@, "canonical_key"@, "concept_type"@,
                "origin_interaction"@, "origin_agent"@, "created_at"@, "access_count"@,
                "last_accessed"@, "gc_survived"@, "canonization_status"@, "blast_radius"@,
                "last_demotion_time"@, "embedding"@, "chunk_group_id"@,
            ],
        },
        ShapeModel {
            name: "edges"@,
            columns: seq![
                "id"@, "session_id"@, "source"@, "target"@, "edge_type"@, "weight"@,
                "reinforcements"@, "created_at"@, "last_reinforced"@,
            ],
        },
        ShapeModel {
            name: "interactions"@,
            columns: seq![
                "id"@, "session_id"@, "agent_id"@, "prompt_text"@, "previous_id"@, "created_at"@,
            ],
        },
        ShapeModel {
            name: "reservations"@,
            columns: seq![
                "session_id"@, "node_id"@, "agent_id"@, "expires_at"@,
            ],
        },
        ShapeModel {
            name: "session_leases"@,
            columns: seq![
                "session_id"@, "holder"@, "acquired_at"@, "expires_at"@, "current_token"@,
                "endpoint"@,
            ],
        },
        ShapeModel {
            name: "session_stats"@,
            columns: seq![
                "session_id"@, "flush_lag_ms"@, "log_depth"@, "updated_at"@,
            ],
        },
        ShapeModel {
            name: "sessions"@,
            columns: seq![
                "session_id"@, "root_goal"@, "created_at"@, "closed_at"@, "embedding_kind"@,
                "embedding_model"@, "embedding_dim"@,
            ],
        },
        ShapeModel {
            name: "synonyms"@,
            columns: seq![
                "session_id"@, "source_key"@, "canonical_key"@,
            ],
        },
        ShapeModel {
            name: "write_intents"@,
            columns: seq![
                "session_id"@, "receipt"@, "agent"@, "interaction_id"@, "lane_seq"@,
                "issued_ms"@, "payload"@, "created_at"@, "consumed_at"@, "outcome_tag"@,
                "outcome_summary"@,
            ],
        },
    ]
}

/// A table's shape out of its name and the names of its columns.
fn shape<const N: usize>(name: &str, columns: [&str; N]) -> (t: TableShape)
    ensures
        t@.name == name@,
        t@.columns == Seq::new(N as nat, |i: int| columns@[i]@),
{
    let mut v: Vec<String> = Vec::new();
    let mut i: usize = 0;
    let ghost all = Seq::new(N as nat, |i: int| columns@[i]@);
    while i < N
        invariant
            i <= N,
            columns@.len() == N,
            all == Seq::new(N as nat, |i: int| columns@[i]@),
            texts(v@) == all.take(i as int),
        decreases N - i,
    {
        let ghost before = v@;
        v.push(columns[i].to_owned());
        proof {
            assert(texts(v@) =~= texts(before).push(all[i as int]));
            assert(all.take(i + 1) =~= all.take(i as int).push(all[i as int]));
        }
        i = i + 1;
    }
    proof {
        assert(all.take(N as int) =~= all);
    }
    TableShape { name: name.to_owned(), columns: v }
}

/// The tables and columns that the store needs.
pub fn required_schema() -> (v: Vec<TableShape>)
    ensures
        shapes(v@) == required_shapes(),
{
    let mut v: Vec<TableShape> = Vec::new();
    v.push(
        shape(
            "canonization_events",
            [
                "id", "session_id", "node_id", "from_status", "to_status", "blast_radius",
                "last_demotion_time", "occurred_at",
            ],
        ),
    );
    v.push(
        shape(
            "concepts",
            [
                "id", "session_id", "content", "canonical_key", "concept_type",
                "origin_interaction", "origin_agent", "created_at", "access_count",
                "last_accessed", "gc_survived", "canonization_status", "blast_radius",
                "last_demotion_time", "embedding", "chunk_group_id",
            ],
        ),
    );
    v.push(
        shape(
            "edges",
            [
                "id", "session_id", "source", "target", "edge_type", "weight", "reinforcements",
                "created_at", "last_reinforced",
            ],
        ),
    );
    v.push(
        shape(
            "interactions",
            [
                "id", "session_id", "agent_id", "prompt_text", "previous_id", "created_at",
            ],
        ),
    );
    v.push(
        shape(
            "reservations",
            [
                "session_id", "node_id", "agent_id", "expires_at",
            ],
        ),
    );
    v.push(
        shape(
            "session_leases",
            [
                "session_id", "holder", "acquired_at", "expires_at", "current_token", "endpoint",
            ],
        ),
    );
    v.push(
        shape(
            "session_stats",
            [
                "session_id", "flush_lag_ms", "log_depth", "updated_at",
            ],
        ),
    );
    v.push(
        shape(
            "sessions",
            [
                "session_id", "root_goal", "created_at", "closed_at", "embedding_kind",
                "embedding_model", "embedding_dim",
            ],
        ),
    );
    v.push(
        shape(
            "synonyms",
            [
                "session_id", "source_key", "canonical_key",
            ],
        ),
    );
    v.push(
        shape(
            "write_intents",
            [
                "session_id", "receipt", "agent", "interaction_id", "lane_seq", "issued_ms",
                "payload", "created_at", "consumed_at", "outcome_tag", "outcome_summary",
            ],
        ),
    );
    proof {
        let s = shapes(v@);
        let q = required_shapes();
        assert(s[0].columns =~= q[0].columns);
        assert(s[1].columns =~= q[1].columns);
        assert(s[2].columns =~= q[2].columns);
        assert(s[3].columns =~= q[3].columns);
        assert(s[4].columns =~= q[4].columns);
        assert(s[5].columns =~= q[5].columns);
        assert(s[6].columns =~= q[6].columns);
        assert(s[7].columns =~= q[7].columns);
        assert(s[8].columns =~= q[8].columns);
        assert(s[9].columns =~= q[9].columns);
        assert(s =~= q);
    }
    v
}

/// A column that is added to a database made before the column was.
#[derive(Debug)]
pub struct Migration {
    pub table: String,
    pub column: String,
    pub ddl: String,
}

/// An added column, as values.
pub struct MigrationModel {
    pub table: Seq<char>,
    pub column: Seq<char>,
    pub ddl: Seq<char>,
}

impl View for Migration {
    type V = MigrationModel;

    open spec fn view(&self) -> MigrationModel {
        MigrationModel { table: self.table@, column: self.column@, ddl: self.ddl@ }
    }
}

/// The views of migrations.
pub open spec fn migrations_of(v: Seq<Migration>) -> Seq<MigrationModel> {
    Seq::new(v.len(), |i: int| v[i]@)
}

/// The columns that were added since the first schema, in the order in which they are added.
pub open spec fn added_columns() -> Seq<MigrationModel> {
    seq![
        MigrationModel {
            table: "concepts"@,
            column: "chunk_group_id"@,
            ddl: "ALTER TABLE concepts ADD COLUMN chunk_group_id TEXT"@,
        },
        MigrationModel {
            table: "sessions"@,
            column: "embedding_kind"@,
            ddl: "ALTER TABLE sessions ADD COLUMN embedding_kind TEXT"@,
        },
        MigrationModel {
            table: "sessions"@,
            column: "embedding_model"@,
            ddl: "ALTER TABLE sessions ADD COLUMN embedding_model TEXT"@,
        },
        MigrationModel {
            table: "sessions"@,
            column: "embedding_dim"@,
            ddl: "ALTER TABLE sessions ADD COLUMN embedding_dim INTEGER"@,
        },
        MigrationModel {
            table: "canonization_events"@,
            column: "last_demotion_time"@,
            ddl: "ALTER TABLE canonization_events ADD COLUMN last_demotion_time TEXT"@,
        },
        MigrationModel {
            table: "session_leases"@,
            column: "current_token"@,
            ddl: "ALTER TABLE session_leases ADD COLUMN current_token INTEGER NOT NULL DEFAULT 0"@,
        },
        MigrationModel {
            table: "session_leases"@,
            column: "endpoint"@,
            ddl: "ALTER TABLE session_leases ADD COLUMN endpoint TEXT"@,
        },
    ]
}

fn migration(table: &str, column: &str, ddl: &str) -> (m: Migration)
    ensures
        m@ == (MigrationModel { table: table@, column: column@, ddl: ddl@ }),
{
    Migration { table: table.to_owned(), column: column.to_owned(), ddl: ddl.to_owned() }
}

/// The columns that were added since the first schema.
pub fn column_migrations() -> (v: Vec<Migration>)
    ensures
        migrations_of(v@) == added_columns(),
{
    let mut v: Vec<Migration> = Vec::new();
    v.push(
        migration(
            "concepts",
            "chunk_group_id",
            "ALTER TABLE concepts ADD COLUMN chunk_group_id TEXT",
        ),
    );
    v.push(
        migration(
            "sessions",
            "embedding_kind",
            "ALTER TABLE sessions ADD COLUMN embedding_kind TEXT",
        ),
    );
    v.push(
        migration(
            "sessions",
            "embedding_model",
            "ALTER TABLE sessions ADD COLUMN embedding_model TEXT",
        ),
    );
    v.push(
        migration(
            "sessions",
            "embedding_dim",
            "ALTER TABLE sessions ADD COLUMN embedding_dim INTEGER",
        ),
    );
    v.push(
        migration(
            "canonization_events",
            "last_demotion_time",
            "ALTER TABLE canonization_events ADD COLUMN last_demotion_time TEXT",
        ),
    );
    v.push(
        migration(
            "session_leases",
            "current_token",
            "ALTER TABLE session_leases ADD COLUMN current_token INTEGER NOT NULL DEFAULT 0",
        ),
    );
    v.push(
        migration(
            "session_leases",
            "endpoint",
            "ALTER TABLE session_leases ADD COLUMN endpoint TEXT",
        ),
    );
    proof {
        assert(migrations_of(v@) =~= added_columns());
    }
    v
}

/// The columns of some that a database lacks.
pub open spec fn pending(ms: Seq<MigrationModel>, present: Seq<ShapeModel>) -> Seq<MigrationModel>
    decreases ms.len(),
{
    if ms.len() == 0 {
        Seq::empty()
    } else {
        let rest = pending(ms.drop_last(), present);
        if has_column(present, ms.last().table, ms.last().column) {
            rest
        } else {
            rest.push(ms.last())
        }
    }
}

/// The columns of some that a database lacks, in their order.
pub fn pending_migrations(ms: &Vec<Migration>, present: &Vec<TableShape>) -> (v: Vec<Migration>)
    ensures
        migrations_of(v@) == pending(migrations_of(ms@), shapes(present@)),
{
    let ghost all = migrations_of(ms@);
    let mut v: Vec<Migration> = Vec::new();
    let mut i: usize = 0;
    proof {
        assert(all.take(0) =~= Seq::empty());
        assert(migrations_of(v@) =~= Seq::empty());
    }
    while i < ms.len()
        invariant
            all == migrations_of(ms@),
            i <= ms@.len(),
            migrations_of(v@) == pending(all.take(i as int), shapes(present@)),
        decreases ms@.len() - i,
    {
        let ghost before = v@;
        proof {
            assert(all.take(i + 1).drop_last() =~= all.take(i as int));
            assert(all.take(i + 1).last() == ms@[i as int]@);
        }
        if !column_is_there(present, &ms[i].table, &ms[i].column) {
            v.push(migration(ms[i].table.as_str(), ms[i].column.as_str(), ms[i].ddl.as_str()));
            proof {
                assert(migrations_of(v@) =~= migrations_of(before).push(ms@[i as int]@));
            }
        }
        i = i + 1;
    }
    proof {
        assert(all.take(all.len() as int) =~= all);
    }
    v
}

/// A database's tables with a column added to one.
pub open spec fn with_column(present: Seq<ShapeModel>, m: MigrationModel) -> Seq<ShapeModel> {
    Seq::new(
        present.len(),
        |i: int|
            if present[i].name == m.table {
                ShapeModel { columns: present[i].columns.push(m.column), ..present[i] }
            } else {
                present[i]
            },
    )
}

/// A database's tables with columns added.
pub open spec fn with_columns(present: Seq<ShapeModel>, ms: Seq<MigrationModel>) -> Seq<ShapeModel>
    decreases ms.len(),
{
    if ms.len() == 0 {
        present
    } else {
        with_column(with_columns(present, ms.drop_last()), ms.last())
    }
}

proof fn lemma_column_stays(
    present: Seq<ShapeModel>,
    m: MigrationModel,
    name: Seq<char>,
    column: Seq<char>,
)
    ensures
        has_column(present, name, column) ==> has_column(with_column(present, m), name, column),
        has_table(present, name) ==> has_table(with_column(present, m), name),
        has_table(present, m.table) ==> has_column(with_column(present, m), m.table, m.column),
{
    let more = with_column(present, m);
    if has_column(present, name, column) {
        let i = choose|i: int|
            0 <= i < present.len() && (#[trigger] present[i]).name == name
                && present[i].columns.contains(column);
        let c = choose|c: int|
            0 <= c < present[i].columns.len() && present[i].columns[c] == column;
        assert(more[i].columns[c] == column);
        assert(more[i].name == name);
    }
    if has_table(present, name) {
        let i = choose|i: int| 0 <= i < present.len() && (#[trigger] present[i]).name == name;
        assert(more[i].name == name);
    }
    if has_table(present, m.table) {
        let i = choose|i: int| 0 <= i < present.len() && (#[trigger] present[i]).name == m.table;
        let n = present[i].columns.len() as int;
        assert(more[i].columns[n] == m.column);
        assert(more[i].name == m.table);
    }
}

/// That some migration adds a column.
pub open spec fn adds(ms: Seq<MigrationModel>, table: Seq<char>, column: Seq<char>) -> bool {
    exists|i: int|
        0 <= i < ms.len() && (#[trigger] ms[i]).table == table && ms[i].column == column
}

proof fn lemma_columns_stay(
    present: Seq<ShapeModel>,
    ms: Seq<MigrationModel>,
    name: Seq<char>,
    column: Seq<char>,
)
    ensures
        has_column(present, name, column) ==> has_column(with_columns(present, ms), name, column),
        has_table(present, name) ==> has_table(with_columns(present, ms), name),
        adds(ms, name, column) && has_table(present, name) ==> has_column(
            with_columns(present, ms),
            name,
            column,
        ),
    decreases ms.len(),
{
    if ms.len() > 0 {
        let less = ms.drop_last();
        lemma_columns_stay(present, less, name, column);
        lemma_column_stays(with_columns(present, less), ms.last(), name, column);
        if adds(ms, name, column) {
            let i = choose|i: int|
                0 <= i < ms.len() && (#[trigger] ms[i]).table == name && ms[i].column == column;
            if i < less.len() {
                assert(less[i] == ms[i]);
            }
        }
    }
}

proof fn lemma_pending(ms: Seq<MigrationModel>, present: Seq<ShapeModel>, i: int)
    requires
        0 <= i < ms.len(),
    ensures
        has_column(present, ms[i].table, ms[i].column) || adds(
            pending(ms, present),
            ms[i].table,
            ms[i].column,
        ),
    decreases ms.len(),
{
    let rest = pending(ms.drop_last(), present);
    if i < ms.len() - 1 {
        lemma_pending(ms.drop_last(), present, i);
        if adds(rest, ms[i].table, ms[i].column) {
            let j = choose|j: int|
                0 <= j < rest.len() && (#[trigger] rest[j]).table == ms[i].table && rest[j].column
                    == ms[i].column;
            assert(pending(ms, present)[j] == rest[j]);
        }
    } else if !has_column(present, ms[i].table, ms[i].column) {
        assert(pending(ms, present)[rest.len() as int] == ms[i]);
    }
}

proof fn lemma_none_pending(ms: Seq<MigrationModel>, present: Seq<ShapeModel>)
    requires
        forall|i: int|
            0 <= i < ms.len() ==> has_column(present, (#[trigger] ms[i]).table, ms[i].column),
    ensures
        pending(ms, present).len() == 0,
    decreases ms.len(),
{
    if ms.len() > 0 {
        let less = ms.drop_last();
        assert(forall|i: int| 0 <= i < less.len() ==> less[i] == ms[i]);
        lemma_none_pending(less, present);
        assert(ms.last() == ms[ms.len() - 1]);
    }
}

/// A database that has the tables has every added column once the columns it lacked were added:
/// adding them a second time adds nothing.
pub proof fn adding_columns_converges(ms: Seq<MigrationModel>, present: Seq<ShapeModel>)
    requires
        forall|i: int| 0 <= i < ms.len() ==> has_table(present, (#[trigger] ms[i]).table),
    ensures
        pending(ms, with_columns(present, pending(ms, present))).len() == 0,
{
    let more = with_columns(present, pending(ms, present));
    assert forall|i: int| 0 <= i < ms.len() implies has_column(
        more,
        (#[trigger] ms[i]).table,
        ms[i].column,
    ) by {
        lemma_pending(ms, present, i);
        lemma_columns_stay(present, pending(ms, present), ms[i].table, ms[i].column);
    }
    lemma_none_pending(ms, more);
}

/// That a database has the required tables, and lacks no column of them but such as are added.
pub open spec fn lacks_only_added(
    required: Seq<ShapeModel>,
    ms: Seq<MigrationModel>,
    present: Seq<ShapeModel>,
) -> bool {
    &&& forall|i: int| 0 <= i < required.len() ==> has_table(present, (#[trigger] required[i]).name)
    &&& forall|i: int, c: int|
        0 <= i < required.len() && 0 <= c < required[i].columns.len() ==> has_column(
            present,
            required[i].name,
            #[trigger] required[i].columns[c],
        ) || adds(ms, required[i].name, required[i].columns[c])
}

/// A database that lacks only added columns passes the preflight once they were added.
pub proof fn a_database_with_the_columns_added_passes(
    required: Seq<ShapeModel>,
    ms: Seq<MigrationModel>,
    present: Seq<ShapeModel>,
)
    requires
        lacks_only_added(required, ms, present),
    ensures
        preflight_refusal(required, with_columns(present, pending(ms, present))) is None,
{
    let new = pending(ms, present);
    let more = with_columns(present, new);
    assert forall|i: int| 0 <= i < required.len() implies has_table(
        more,
        (#[trigger] required[i]).name,
    ) by {
        lemma_columns_stay(present, new, required[i].name, Seq::empty());
    }
    assert forall|i: int, c: int|
        0 <= i < required.len() && 0 <= c < required[i].columns.len() implies has_column(
        more,
        required[i].name,
        #[trigger] required[i].columns[c],
    ) by {
        let (name, column) = (required[i].name, required[i].columns[c]);
        assert(has_table(present, required[i].name));
        if !has_column(present, name, column) {
            let j = choose|j: int|
                0 <= j < ms.len() && (#[trigger] ms[j]).table == name && ms[j].column == column;
            lemma_pending(ms, present, j);
        }
        lemma_columns_stay(present, new, name, column);
    }
    only_a_complete_schema_passes(required, more);
}

/// A database with the tables made that it lacks.
pub open spec fn with_tables(present: Seq<ShapeModel>, required: Seq<ShapeModel>) -> Seq<ShapeModel>
    decreases required.len(),
{
    if required.len() == 0 {
        present
    } else {
        let rest = with_tables(present, required.drop_last());
        if has_table(rest, required.last().name) {
            rest
        } else {
            rest.push(required.last())
        }
    }
}

/// A database once its schema was initialised: the tables it lacks are made, then the columns that
/// its older tables lack are added.
pub open spec fn initialised(present: Seq<ShapeModel>) -> Seq<ShapeModel> {
    let made = with_tables(present, required_shapes());
    with_columns(made, pending(added_columns(), made))
}

proof fn lemma_tables_made(present: Seq<ShapeModel>, required: Seq<ShapeModel>)
    ensures
        forall|i: int|
            0 <= i < required.len() ==> has_table(
                with_tables(present, required),
                (#[trigger] required[i]).name,
            ),
        forall|name: Seq<char>| #[trigger]
            has_table(present, name) ==> has_table(with_tables(present, required), name),
        forall|name: Seq<char>, column: Seq<char>| #[trigger]
            has_column(present, name, column) ==> has_column(
                with_tables(present, required),
                name,
                column,
            ),
    decreases required.len(),
{
    if required.len() > 0 {
        let less = required.drop_last();
        let last = required.last();
        let rest = with_tables(present, less);
        let made = with_tables(present, required);
        lemma_tables_made(present, less);
        assert(forall|i: int| 0 <= i < rest.len() ==> rest[i] == made[i]);
        assert forall|name: Seq<char>| #[trigger] has_table(rest, name) implies has_table(
            made,
            name,
        ) by {
            let i = choose|i: int| 0 <= i < rest.len() && (#[trigger] rest[i]).name == name;
            assert(made[i].name == name);
        }
        assert forall|name: Seq<char>, column: Seq<char>| #[trigger]
            has_column(rest, name, column) implies has_column(made, name, column) by {
            let i = choose|i: int|
                0 <= i < rest.len() && (#[trigger] rest[i]).name == name
                    && rest[i].columns.contains(column);
            assert(made[i].name == name);
        }
        assert forall|i: int| 0 <= i < required.len() implies has_table(
            made,
            (#[trigger] required[i]).name,
        ) by {
            if i < less.len() {
                assert(less[i] == required[i]);
                assert(has_table(rest, less[i].name));
            } else if !has_table(rest, last.name) {
                assert(made[rest.len() as int].name == last.name);
            }
        }
        assert forall|name: Seq<char>| #[trigger] has_table(present, name) implies has_table(
            made,
            name,
        ) by {
            assert(has_table(rest, name));
        }
        assert forall|name: Seq<char>, column: Seq<char>| #[trigger]
            has_column(present, name, column) implies has_column(made, name, column) by {
            assert(has_column(rest, name, column));
        }
    }
}

/// A table that was made has the columns that were asked for.
proof fn lemma_table_made_whole(present: Seq<ShapeModel>, required: Seq<ShapeModel>, i: int, c: int)
    requires
        0 <= i < required.len(),
        0 <= c < required[i].columns.len(),
        !has_table(present, required[i].name),
        forall|a: int, b: int|
            0 <= a < b < required.len() ==> (#[trigger] required[a]).name != (
            #[trigger] required[b]).name,
    ensures
        has_column(with_tables(present, required), required[i].name, required[i].columns[c]),
    decreases required.len(),
{
    let less = required.drop_last();
    let rest = with_tables(present, less);
    let made = with_tables(present, required);
    assert forall|a: int, b: int| 0 <= a < b < less.len() implies (#[trigger] less[a]).name != (
    #[trigger] less[b]).name by {
        assert(less[a] == required[a] && less[b] == required[b]);
    }
    if i < less.len() {
        assert(less[i] == required[i]);
        lemma_table_made_whole(present, less, i, c);
        let j = choose|j: int|
            0 <= j < rest.len() && (#[trigger] rest[j]).name == required[i].name
                && rest[j].columns.contains(required[i].columns[c]);
        assert(made[j] == rest[j]);
    } else {
        assert forall|a: int| 0 <= a < less.len() implies (#[trigger] less[a]).name
            != required[i].name by {
            assert(less[a] == required[a]);
        }
        lemma_no_other_made(present, less, required[i].name);
        assert(made[rest.len() as int] == required[i]);
    }
}

proof fn lemma_no_other_made(present: Seq<ShapeModel>, required: Seq<ShapeModel>, name: Seq<char>)
    requires
        !has_table(present, name),
        forall|a: int| 0 <= a < required.len() ==> (#[trigger] required[a]).name != name,
    ensures
        !has_table(with_tables(present, required), name),
    decreases required.len(),
{
    if required.len() > 0 {
        let less = required.drop_last();
        assert forall|a: int| 0 <= a < less.len() implies (#[trigger] less[a]).name != name by {
            assert(less[a] == required[a]);
        }
        lemma_no_other_made(present, less, name);
        let rest = with_tables(present, less);
        let made = with_tables(present, required);
        assert(required.last() == required[required.len() - 1]);
        if has_table(made, name) {
            let j = choose|j: int| 0 <= j < made.len() && (#[trigger] made[j]).name == name;
            if j < rest.len() {
                assert(made[j] == rest[j]);
            }
        }
    }
}

proof fn lemma_none_made(present: Seq<ShapeModel>, required: Seq<ShapeModel>)
    requires
        forall|i: int| 0 <= i < required.len() ==> has_table(present, (#[trigger] required[i]).name),
    ensures
        with_tables(present, required) == present,
    decreases required.len(),
{
    if required.len() > 0 {
        let less = required.drop_last();
        assert forall|i: int| 0 <= i < less.len() implies has_table(
            present,
            (#[trigger] less[i]).name,
        ) by {
            assert(less[i] == required[i]);
        }
        lemma_none_made(present, less);
        assert(required.last() == required[required.len() - 1]);
    }
}

proof fn lemma_required_names_differ()
    ensures
        forall|a: int, b: int|
            0 <= a < b < required_shapes().len() ==> (#[trigger] required_shapes()[a]).name != (
            #[trigger] required_shapes()[b]).name,
{
    reveal_strlit("canonization_events");
    reveal_strlit("concepts");
    reveal_strlit("edges");
    reveal_strlit("interactions");
    reveal_strlit("reservations");
    reveal_strlit("session_leases");
    reveal_strlit("session_stats");
    reveal_strlit("sessions");
    reveal_strlit("synonyms");
    reveal_strlit("write_intents");
    let q = required_shapes();
    assert forall|a: int, b: int| 0 <= a < b < q.len() implies (#[trigger] q[a]).name != (
    #[trigger] q[b]).name by {
        let (x, y) = (q[a].name, q[b].name);
        assert(x.len() != y.len() || x[0] != y[0] || x[1] != y[1]);
    }
}

proof fn lemma_added_to_required()
    ensures
        forall|i: int|
            0 <= i < added_columns().len() ==> has_table(
                required_shapes(),
                (#[trigger] added_columns()[i]).table,
            ),
{
    let q = required_shapes();
    assert(q[0].name == "canonization_events"@);
    assert(q[1].name == "concepts"@);
    assert(q[5].name == "session_leases"@);
    assert(q[7].name == "sessions"@);
}

/// Initialising the schema converges: of a database that is empty, or that lacks tables and such
/// columns as were added since, it makes one that passes the preflight; a second time it changes
/// nothing; and no table and no column is ever lost.
pub proof fn initialising_converges(present: Seq<ShapeModel>)
    requires
        forall|i: int, c: int|
            0 <= i < required_shapes().len() && 0 <= c < required_shapes()[i].columns.len()
                && has_table(present, required_shapes()[i].name) ==> has_column(
                present,
                required_shapes()[i].name,
                #[trigger] required_shapes()[i].columns[c],
            ) || adds(
                added_columns(),
                required_shapes()[i].name,
                required_shapes()[i].columns[c],
            ),
    ensures
        preflight_refusal(required_shapes(), initialised(present)) is None,
        initialised(initialised(present)) == initialised(present),
        forall|name: Seq<char>| #[trigger]
            has_table(present, name) ==> has_table(initialised(present), name),
        forall|name: Seq<char>, column: Seq<char>| #[trigger]
            has_column(present, name, column) ==> has_column(initialised(present), name, column),
{
    let q = required_shapes();
    let ms = added_columns();
    let made = with_tables(present, q);
    let new = pending(ms, made);
    let done = initialised(present);
    lemma_tables_made(present, q);
    lemma_required_names_differ();
    assert forall|i: int, c: int| 0 <= i < q.len() && 0 <= c < q[i].columns.len() implies has_column(
        made,
        q[i].name,
        #[trigger] q[i].columns[c],
    ) || adds(ms, q[i].name, q[i].columns[c]) by {
        if has_table(present, q[i].name) {
            assert(has_column(present, q[i].name, q[i].columns[c]) || adds(
                ms,
                q[i].name,
                q[i].columns[c],
            ));
        } else {
            lemma_table_made_whole(present, q, i, c);
        }
    }
    a_database_with_the_columns_added_passes(q, ms, made);
    lemma_added_to_required();
    assert forall|i: int| 0 <= i < ms.len() implies has_table(made, (#[trigger] ms[i]).table) by {
        let j = choose|j: int| 0 <= j < q.len() && (#[trigger] q[j]).name == ms[i].table;
        assert(has_table(made, q[j].name));
    }
    adding_columns_converges(ms, made);
    assert forall|i: int| 0 <= i < q.len() implies has_table(done, (#[trigger] q[i]).name) by {
        lemma_columns_stay(made, new, q[i].name, Seq::empty());
    }
    lemma_none_made(done, q);
    assert forall|name: Seq<char>| #[trigger] has_table(present, name) implies has_table(
        done,
        name,
    ) by {
        lemma_columns_stay(made, new, name, Seq::empty());
    }
    assert forall|name: Seq<char>, column: Seq<char>| #[trigger]
        has_column(present, name, column) implies has_column(done, name, column) by {
        lemma_columns_stay(made, new, name, column);
    }
}

} // verus!
