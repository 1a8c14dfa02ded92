//! Query builders: staged, inert construction of SELECT / INSERT / UPDATE /
//! DROP TABLE statements, validated and executed only at `build`. Execution
//! semantics are given against the in-memory backend; nothing reaches a
//! backend before `build` is invoked.

use vstd::prelude::*;

verus! {

use crate::backend::{Connection, ConnectionModel, TableState, TableStateModel,
    lemma_table_index_unique};
use crate::condition::{Condition, ParamStyle, render, eval_row};
use crate::error::{ExecError, QueryError, ValidationError};
use crate::schema::{TableDescriptor, TableModel, lemma_col_index_unique};
use crate::text::strs;
use crate::value::{Value, ValueModel, row_model, value_copy, value_eq};

/// One entity instance: the descriptor of its table and its field values,
/// one per column in descriptor order. An unset auto-increment primary key
/// is carried as [`Value::Null`] and assigned by the backend on insert.
#[derive(Debug)]
pub struct Entity {
    pub descriptor: TableDescriptor,
    pub values: Vec<Value>,
}

/// The mathematical model of an entity: its table's name and its cell
/// models in column order.
pub struct EntityModel {
    pub table: Seq<char>,
    pub values: Seq<ValueModel>,
}

impl Entity {
    pub open spec fn model(self) -> EntityModel {
        EntityModel { table: self.descriptor.name@, values: row_model(self.values@) }
    }
}

/// The models of a sequence of entities.
pub open spec fn ent_models(s: Seq<Entity>) -> Seq<EntityModel> {
    s.map_values(|e: Entity| e.model())
}

/// The row actually stored for these values: each unset (null)
/// auto-increment primary-key cell is replaced by the assigned row id.
pub open spec fn bind_row(d: TableModel, vals: Seq<ValueModel>, rowid: int) -> Seq<ValueModel> {
    Seq::new(
        d.columns.len(),
        |i: int| if d.columns[i].primary_key_auto && vals[i] is MNull {
            ValueModel::MInteger(rowid)
        } else {
            vals[i]
        },
    )
}

/// The rows stored for a batch of entities, with row ids assigned
/// consecutively above `base`.
pub open spec fn bound_rows(d: TableModel, ents: Seq<EntityModel>, base: int) -> Seq<
    Seq<ValueModel>,
> {
    Seq::new(ents.len(), |k: int| bind_row(d, ents[k].values, base + k + 1))
}

/// All entities of the batch name the same table.
pub open spec fn ents_share(ents: Seq<EntityModel>) -> bool {
    forall|i: int| 0 <= i < ents.len() ==> (#[trigger] ents[i]).table == ents[0].table
}

/// Every entity has one value per column of the stored table.
pub open spec fn ents_arity_ok(t: TableStateModel, ents: Seq<EntityModel>) -> bool {
    forall|i: int|
        0 <= i < ents.len() ==> (#[trigger] ents[i]).values.len() == t.descriptor.columns.len()
}

/// When an INSERT succeeds: a nonempty batch naming one existing table,
/// every entity of the right arity, and room left for the new row ids.
pub open spec fn insert_ok(m: ConnectionModel, ents: Seq<EntityModel>) -> bool {
    &&& ents.len() > 0
    &&& ents_share(ents)
    &&& m.has_table(ents[0].table)
    &&& ents_arity_ok(m.tables[m.table_index(ents[0].table)], ents)
    &&& m.tables[m.table_index(ents[0].table)].rows.len() + ents.len() <= i64::MAX
}

/// The table set after a successful INSERT: the target table's rows are
/// extended by the bound rows of the batch, everything else is untouched.
pub open spec fn insert_result(m: ConnectionModel, ents: Seq<EntityModel>) -> Seq<
    TableStateModel,
> {
    let ti = m.table_index(ents[0].table);
    let t = m.tables[ti];
    m.tables.update(
        ti,
        TableStateModel {
            descriptor: t.descriptor,
            rows: t.rows + bound_rows(t.descriptor, ents, t.rows.len() as int),
        },
    )
}

/// Whether a cell is the SQL null.
pub fn is_null(v: &Value) -> (r: bool)
    ensures
        r == (v.model() is MNull),
{
    match v {
        Value::Null => true,
        _ => false,
    }
}

/// Inserts one or more entities sharing a schema descriptor into their
/// table, binding values positionally per descriptor order and assigning
/// row ids to unset auto-increment primary keys. All-or-nothing: the batch
/// is validated in full before the first row is stored, and on any failure
/// the connection is unchanged. Returns the number of rows inserted.
#[verifier::loop_isolation(false)]
pub fn insert(conn: &mut Connection, entities: Vec<Entity>) -> (r: Result<usize, QueryError>)
    requires
        old(conn).model().wf(),
    ensures
        final(conn).model().wf(),
        (r is Ok) == insert_ok(old(conn).model(), ent_models(entities@)),
        r matches Ok(n) ==> {
            &&& n == entities@.len()
            &&& final(conn).model().name == old(conn).model().name
            &&& final(conn).model().tables == insert_result(
                old(conn).model(),
                ent_models(entities@),
            )
        },
        r is Err ==> final(conn).model() == old(conn).model(),
        r matches Err(e) ==> insert_err_cases(old(conn).model(), ent_models(entities@), e),
{
    let ghost m0 = conn.model();
    let ghost ents = ent_models(entities@);
    if entities.len() == 0 {
        return Err(QueryError::Validation(ValidationError::NoRows));
    }
    let mut i: usize = 1;
    while i < entities.len()
        invariant
            1 <= i <= entities@.len(),
            forall|j: int| 0 <= j < i ==> (#[trigger] ents[j]).table == ents[0].table,
        decreases entities@.len() - i,
    {
        proof {
            assert(ents[i as int] == entities@[i as int].model());
        }
        if entities[i].descriptor.name != entities[0].descriptor.name {
            return Err(QueryError::Validation(ValidationError::MixedDescriptors));
        }
        i += 1;
    }
    let ti = match conn.find_table(&entities[0].descriptor.name) {
        Some(ti) => ti,
        None => {
            return Err(
                QueryError::Exec(ExecError::NoSuchTable(entities[0].descriptor.name.clone())),
            );
        },
    };
    proof {
        lemma_table_index_unique(m0, ents[0].table, ti as int);
        assert(m0.tables[ti as int] == conn.tables@[ti as int].model());
        assert(m0.tables[ti as int].wf());
    }
    let ghost t0 = m0.tables[ti as int];
    let ncols = conn.tables[ti].descriptor.columns.len();
    let mut a: usize = 0;
    while a < entities.len()
        invariant
            a <= entities@.len(),
            forall|j: int| 0 <= j < a ==> (#[trigger] ents[j]).values.len() == ncols,
            ncols == t0.descriptor.columns.len(),
        decreases entities@.len() - a,
    {
        proof {
            assert(ents[a as int] == entities@[a as int].model());
        }
        if entities[a].values.len() != ncols {
            return Err(QueryError::Validation(ValidationError::ArityMismatch));
        }
        a += 1;
    }
    let base = conn.tables[ti].rows.len();
    proof {
        assert(t0.rows.len() == base);
    }
    if entities.len() as u64 > (0x7fff_ffff_ffff_ffffu64) - (base as u64) {
        return Err(QueryError::Exec(ExecError::TableFull(entities[0].descriptor.name.clone())));
    }
    proof {
        assert(insert_ok(m0, ents));
    }
    let mut t = conn.tables.remove(ti);
    let ghost d = t0.descriptor;
    proof {
        assert(t.model() == t0);
        assert(t.model().rows =~= t0.rows + bound_rows(d, ents, base as int).subrange(0, 0));
    }
    let mut k: usize = 0;
    while k < entities.len()
        invariant
            k <= entities@.len(),
            t.descriptor.model() == d,
            t.rows@.len() == base + k,
            base + entities@.len() <= i64::MAX,
            t.model().rows == t0.rows + bound_rows(d, ents, base as int).subrange(0, k as int),
        decreases entities@.len() - k,
    {
        proof {
            assert(ents[k as int] == entities@[k as int].model());
        }
        let rid: i64 = (base as i64) + (k as i64) + 1;
        let mut row: Vec<Value> = Vec::new();
        let mut j: usize = 0;
        while j < ncols
            invariant
                j <= ncols,
                k < entities@.len(),
                entities@[k as int].values@.len() == ncols,
                row@.len() == j,
                rid == base + k + 1,
                forall|x: int|
                    0 <= x < j ==> (#[trigger] row@[x]).model() == bind_row(
                        d,
                        ents[k as int].values,
                        base + k + 1,
                    )[x],
            decreases ncols - j,
        {
            let cell = if t.descriptor.columns[j].primary_key_auto && is_null(
                &entities[k].values[j],
            ) {
                Value::Integer(rid)
            } else {
                value_copy(&entities[k].values[j])
            };
            proof {
                assert(d.columns[j as int] == t.descriptor.columns@[j as int].model());
                assert(ents[k as int].values[j as int] == entities@[k as int].values@[
                    j as int
                ].model());
            }
            row.push(cell);
            j += 1;
        }
        proof {
            assert(row_model(row@) =~= bind_row(d, ents[k as int].values, base + k + 1));
        }
        let ghost trows_before = t.model().rows;
        t.rows.push(row);
        proof {
            assert forall|x: int| 0 <= x < t.model().rows.len() implies t.model().rows[x] == (
            t0.rows + bound_rows(d, ents, base as int).subrange(0, k as int + 1))[x] by {
                if x < trows_before.len() {
                    assert(t.model().rows[x] == trows_before[x]);
                } else {
                    assert(t.model().rows[x] == row_model(row@));
                }
            }
            assert(t.model().rows =~= t0.rows + bound_rows(d, ents, base as int).subrange(
                0,
                k as int + 1,
            ));
        }
        k += 1;
    }
    proof {
        assert(t.model().rows =~= t0.rows + bound_rows(d, ents, base as int));
        assert(t.model() == TableStateModel {
            descriptor: t0.descriptor,
            rows: t0.rows + bound_rows(d, ents, base as int),
        });
        assert forall|x: int| 0 <= x < t.model().rows.len() implies #[trigger] t.model().rows[
            x
        ].len() == t.model().descriptor.columns.len() by {
            if x < t0.rows.len() {
                assert(t.model().rows[x] == t0.rows[x]);
            } else {
                assert(t.model().rows[x] == bound_rows(d, ents, base as int)[x - t0.rows.len()]);
            }
        }
        assert(t.model().wf());
    }
    let ghost tables_mid = conn.model().tables;
    conn.tables.insert(ti, t);
    proof {
        assert forall|x: int| 0 <= x < conn.model().tables.len() implies conn.model().tables[x]
            == insert_result(m0, ents)[x] by {
            if x < ti as int {
                assert(conn.tables@[x] == conn.tables@[x]);
                assert(conn.model().tables[x] == conn.tables@[x].model());
                assert(m0.tables[x] == old(conn).tables@[x].model());
            } else if x == ti as int {
                assert(conn.model().tables[x] == t.model());
            } else {
                assert(conn.model().tables[x] == conn.tables@[x].model());
                assert(m0.tables[x] == old(conn).tables@[x].model());
            }
        }
        assert(conn.model().tables =~= insert_result(m0, ents));
        lemma_update_keeps_wf(m0, conn.model(), ti as int);
    }
    Ok(entities.len())
}

/// Which error an INSERT reports, by cause.
pub open spec fn insert_err_cases(m: ConnectionModel, ents: Seq<EntityModel>, e: QueryError) -> bool {
    if ents.len() == 0 {
        e matches QueryError::Validation(ValidationError::NoRows)
    } else if !ents_share(ents) {
        e matches QueryError::Validation(ValidationError::MixedDescriptors)
    } else if !m.has_table(ents[0].table) {
        e matches QueryError::Exec(ExecError::NoSuchTable(n)) && n@ == ents[0].table
    } else if !ents_arity_ok(m.tables[m.table_index(ents[0].table)], ents) {
        e matches QueryError::Validation(ValidationError::ArityMismatch)
    } else {
        e matches QueryError::Exec(ExecError::TableFull(n)) && n@ == ents[0].table
    }
}

/// Replacing one table by a well-formed one with the same name keeps the
/// connection well-formed.
proof fn lemma_update_keeps_wf(m0: ConnectionModel, m1: ConnectionModel, ti: int)
    requires
        m0.wf(),
        0 <= ti < m0.tables.len(),
        m1.tables.len() == m0.tables.len(),
        forall|x: int| 0 <= x < m0.tables.len() && x != ti ==> m1.tables[x] == #[trigger] m0.tables[x],
        m1.tables[ti].wf(),
        m1.tables[ti].descriptor.name == m0.tables[ti].descriptor.name,
    ensures
        m1.wf(),
{
    assert forall|x: int| 0 <= x < m1.tables.len() implies #[trigger] m1.tables[x].wf() by {
        if x != ti {
            assert(m1.tables[x] == m0.tables[x]);
        }
    }
    assert forall|i: int, j: int|
        0 <= i < j < m1.tables.len() implies m1.tables[i].descriptor.name
        != m1.tables[j].descriptor.name by {
        assert(m1.tables[i].descriptor.name == m0.tables[i].descriptor.name);
        assert(m1.tables[j].descriptor.name == m0.tables[j].descriptor.name);
    }
}

/// Whether a row passes the (optional) WHERE condition.
pub open spec fn cond_matches(c: Option<Condition>, d: TableModel, row: Seq<ValueModel>) -> bool {
    match c {
        None => true,
        Some(c) => c.eval(d, row),
    }
}

/// The stored rows that pass the condition, in storage order.
pub open spec fn filter_rows(
    rows: Seq<Seq<ValueModel>>,
    c: Option<Condition>,
    d: TableModel,
) -> Seq<Seq<ValueModel>>
    decreases rows.len(),
{
    if rows.len() == 0 {
        Seq::empty()
    } else {
        let pre = filter_rows(rows.drop_last(), c, d);
        if cond_matches(c, d, rows.last()) {
            pre.push(rows.last())
        } else {
            pre
        }
    }
}

/// One result row: the requested columns of a stored row, each cell tagged
/// with its column name, in the requested order.
pub open spec fn project_row(d: TableModel, row: Seq<ValueModel>, cols: Seq<Seq<char>>) -> Seq<
    (Seq<char>, ValueModel),
> {
    Seq::new(cols.len(), |j: int| (cols[j], row[d.col_index(cols[j])]))
}

/// The projection of every row.
pub open spec fn project_all(
    d: TableModel,
    rows: Seq<Seq<ValueModel>>,
    cols: Seq<Seq<char>>,
) -> Seq<Seq<(Seq<char>, ValueModel)>> {
    Seq::new(rows.len(), |i: int| project_row(d, rows[i], cols))
}

/// Keeps the first occurrence of each distinct result row, dropping later
/// duplicates.
pub open spec fn dedup_rows(rows: Seq<Seq<(Seq<char>, ValueModel)>>) -> Seq<
    Seq<(Seq<char>, ValueModel)>,
>
    decreases rows.len(),
{
    if rows.len() == 0 {
        Seq::empty()
    } else {
        let pre = dedup_rows(rows.drop_last());
        if pre.contains(rows.last()) {
            pre
        } else {
            pre.push(rows.last())
        }
    }
}

/// OFFSET then LIMIT applied to a result sequence.
pub open spec fn page<A>(rows: Seq<A>, offset: Option<usize>, limit: Option<usize>) -> Seq<A> {
    let off = match offset {
        None => 0int,
        Some(o) => o as int,
    };
    let s = if off >= rows.len() {
        Seq::<A>::empty()
    } else {
        rows.subrange(off, rows.len() as int)
    };
    match limit {
        None => s,
        Some(l) => if (l as int) < s.len() {
            s.subrange(0, l as int)
        } else {
            s
        },
    }
}

/// What a SELECT returns from one table: filter by the condition, project
/// onto the requested columns, collapse duplicates if DISTINCT, then page.
pub open spec fn select_rows(
    t: TableStateModel,
    cols: Seq<Seq<char>>,
    c: Option<Condition>,
    dist: bool,
    offset: Option<usize>,
    limit: Option<usize>,
) -> Seq<Seq<(Seq<char>, ValueModel)>> {
    let filtered = filter_rows(t.rows, c, t.descriptor);
    let projected = project_all(t.descriptor, filtered, cols);
    let dd = if dist {
        dedup_rows(projected)
    } else {
        projected
    };
    page(dd, offset, limit)
}

/// The model of one result cell: column name and cell model.
pub open spec fn out_cell_model(p: (String, Value)) -> (Seq<char>, ValueModel) {
    (p.0@, p.1.model())
}

/// The model of one result row.
pub open spec fn out_row_m(r: Seq<(String, Value)>) -> Seq<(Seq<char>, ValueModel)> {
    r.map_values(|p: (String, Value)| out_cell_model(p))
}

/// The model of a whole result set.
pub open spec fn out_model(rs: Seq<Vec<(String, Value)>>) -> Seq<Seq<(Seq<char>, ValueModel)>> {
    rs.map_values(|r: Vec<(String, Value)>| out_row_m(r@))
}

/// A copy of a result row with the same model.
fn row_out_copy(r: &Vec<(String, Value)>) -> (out: Vec<(String, Value)>)
    ensures
        out_row_m(out@) == out_row_m(r@),
{
    let mut out: Vec<(String, Value)> = Vec::new();
    let mut i: usize = 0;
    while i < r.len()
        invariant
            i <= r@.len(),
            out@.len() == i,
            forall|j: int|
                0 <= j < i ==> #[trigger] out_cell_model(out@[j]) == out_cell_model(r@[j]),
        decreases r@.len() - i,
    {
        out.push((r[i].0.clone(), value_copy(&r[i].1)));
        i += 1;
    }
    proof {
        assert(out_row_m(out@) =~= out_row_m(r@));
    }
    out
}

/// Content equality of two result rows: their models are the same.
fn row_out_eq(a: &Vec<(String, Value)>, b: &Vec<(String, Value)>) -> (r: bool)
    ensures
        r == (out_row_m(a@) == out_row_m(b@)),
{
    if a.len() != b.len() {
        return false;
    }
    let mut i: usize = 0;
    while i < a.len()
        invariant
            a@.len() == b@.len(),
            i <= a@.len(),
            forall|j: int|
                0 <= j < i ==> #[trigger] out_cell_model(a@[j]) == out_cell_model(b@[j]),
        decreases a@.len() - i,
    {
        if !(a[i].0 == b[i].0) || !value_eq(&a[i].1, &b[i].1) {
            proof {
                assert(out_row_m(a@)[i as int] != out_row_m(b@)[i as int]);
            }
            return false;
        }
        i += 1;
    }
    proof {
        assert(out_row_m(a@) =~= out_row_m(b@));
    }
    true
}

/// Whether a result set already holds a row of this content.
fn contains_row(v: &Vec<Vec<(String, Value)>>, r: &Vec<(String, Value)>) -> (b: bool)
    ensures
        b == out_model(v@).contains(out_row_m(r@)),
{
    let mut i: usize = 0;
    while i < v.len()
        invariant
            i <= v@.len(),
            forall|j: int| 0 <= j < i ==> #[trigger] out_model(v@)[j] != out_row_m(r@),
        decreases v@.len() - i,
    {
        if row_out_eq(&v[i], r) {
            proof {
                assert(out_model(v@)[i as int] == out_row_m(r@));
            }
            return true;
        }
        proof {
            assert(out_model(v@)[i as int] == out_row_m(v@[i as int]@));
        }
        i += 1;
    }
    proof {
        assert forall|j: int| 0 <= j < out_model(v@).len() implies out_model(v@)[j] != out_row_m(
            r@,
        ) by {}
    }
    false
}

/// Projects one stored row onto the requested columns.
#[verifier::loop_isolation(false)]
fn project_row_exec(d: &TableDescriptor, row: &Vec<Value>, cols: &Vec<String>) -> (out: Vec<
    (String, Value),
>)
    requires
        d.model().wf(),
        forall|j: int| 0 <= j < cols@.len() ==> d.model().has_column(#[trigger] cols@[j]@),
        row@.len() == d.model().columns.len(),
    ensures
        out_row_m(out@) == project_row(d.model(), row_model(row@), strs(cols@)),
{
    let ghost m = d.model();
    let ghost goal = project_row(m, row_model(row@), strs(cols@));
    let mut out: Vec<(String, Value)> = Vec::new();
    let mut j: usize = 0;
    while j < cols.len()
        invariant
            j <= cols@.len(),
            out@.len() == j,
            forall|x: int| 0 <= x < j ==> #[trigger] out_cell_model(out@[x]) == goal[x],
        decreases cols@.len() - j,
    {
        let idx = match d.find_column(&cols[j]) {
            Some(i) => i,
            None => {
                proof {
                    assert(false);
                }
                0
            },
        };
        proof {
            lemma_col_index_unique(m, cols@[j as int]@, idx as int);
            assert(strs(cols@)[j as int] == cols@[j as int]@);
            assert(row_model(row@)[idx as int] == row@[idx as int].model());
        }
        out.push((cols[j].clone(), value_copy(&row[idx])));
        j += 1;
    }
    proof {
        assert(out_row_m(out@) =~= goal);
    }
    out
}

/// A staged SELECT statement: inert until `build`, which validates the
/// stages, renders the condition for the backend's dialect, and executes.
#[derive(Debug)]
pub struct SelectQuery {
    pub columns: Vec<String>,
    pub table: Option<TableDescriptor>,
    pub condition: Option<Condition>,
    pub distinct: bool,
    pub limit: Option<usize>,
    pub offset: Option<usize>,
}

/// Begins a SELECT over the given result columns.
pub fn select(columns: Vec<String>) -> (q: SelectQuery)
    ensures
        q.columns == columns,
        q.table is None,
        q.condition is None,
        !q.distinct,
        q.limit is None,
        q.offset is None,
{
    SelectQuery {
        columns,
        table: None,
        condition: None,
        distinct: false,
        limit: None,
        offset: None,
    }
}

/// When a SELECT succeeds: a `from` table that exists, every requested
/// column and every condition column present in it.
pub open spec fn select_ok(m: ConnectionModel, q: SelectQuery) -> bool {
    &&& q.table is Some
    &&& m.has_table(q.table->0.model().name)
    &&& {
        let d = m.tables[m.table_index(q.table->0.model().name)].descriptor;
        &&& (forall|j: int|
            0 <= j < q.columns@.len() ==> d.has_column(#[trigger] strs(q.columns@)[j]))
        &&& (match q.condition {
            None => true,
            Some(c) => c.cols_ok(d),
        })
    }
}

/// Which error a SELECT reports, by cause.
pub open spec fn select_err_cases(m: ConnectionModel, q: SelectQuery, e: QueryError) -> bool {
    if q.table is None {
        e matches QueryError::Validation(ValidationError::MissingFrom)
    } else if !m.has_table(q.table->0.model().name) {
        e matches QueryError::Exec(ExecError::NoSuchTable(n)) && n@ == q.table->0.model().name
    } else {
        let d = m.tables[m.table_index(q.table->0.model().name)].descriptor;
        if !(forall|j: int|
            0 <= j < q.columns@.len() ==> d.has_column(#[trigger] strs(q.columns@)[j])) {
            e matches QueryError::Validation(ValidationError::UnknownColumn(n)) && !d.has_column(
                n@,
            ) && (exists|j: int| 0 <= j < q.columns@.len() && strs(q.columns@)[j] == n@)
        } else {
            e matches QueryError::Validation(ValidationError::UnknownColumn(n)) && !d.has_column(
                n@,
            ) && n@ == q.condition->0.first_missing(d)
        }
    }
}

impl SelectQuery {
    /// Names the table to select from.
    pub fn from(self, table: &TableDescriptor) -> (q: Self)
        ensures
            q.table matches Some(t) && t.model() == table.model(),
            q.columns == self.columns,
            q.condition == self.condition,
            q.distinct == self.distinct,
            q.limit == self.limit,
            q.offset == self.offset,
    {
        SelectQuery { table: Some(crate::schema::descriptor_copy(table)), ..self }
    }

    /// Restricts the result to rows passing the condition. Without this
    /// stage every row of the table is returned.
    pub fn where_clause(self, condition: Condition) -> (q: Self)
        ensures
            q.condition == Some(condition),
            q.columns == self.columns,
            q.table == self.table,
            q.distinct == self.distinct,
            q.limit == self.limit,
            q.offset == self.offset,
    {
        SelectQuery { condition: Some(condition), ..self }
    }

    /// Collapses duplicate result rows, keeping first occurrences.
    pub fn distinct(self) -> (q: Self)
        ensures
            q.distinct,
            q.columns == self.columns,
            q.table == self.table,
            q.condition == self.condition,
            q.limit == self.limit,
            q.offset == self.offset,
    {
        SelectQuery { distinct: true, ..self }
    }

    /// Returns at most `n` rows.
    pub fn limit(self, n: usize) -> (q: Self)
        ensures
            q.limit == Some(n),
            q.columns == self.columns,
            q.table == self.table,
            q.condition == self.condition,
            q.distinct == self.distinct,
            q.offset == self.offset,
    {
        SelectQuery { limit: Some(n), ..self }
    }

    /// Skips the first `n` rows of the result.
    pub fn offset(self, n: usize) -> (q: Self)
        ensures
            q.offset == Some(n),
            q.columns == self.columns,
            q.table == self.table,
            q.condition == self.condition,
            q.distinct == self.distinct,
            q.limit == self.limit,
    {
        SelectQuery { offset: Some(n), ..self }
    }

    /// Validates the staged statement and executes it against the
    /// connection, returning the result rows in storage order: exactly
    /// [`select_rows`] of the stored table. No backend work happens before
    /// this call.
    #[verifier::loop_isolation(false)]
    pub fn build(self, conn: &Connection) -> (r: Result<Vec<Vec<(String, Value)>>, QueryError>)
        requires
            conn.model().wf(),
        ensures
            (r is Ok) == select_ok(conn.model(), self),
            r matches Ok(rows) ==> out_model(rows@) == select_rows(
                conn.model().tables[conn.model().table_index(self.table->0.model().name)],
                strs(self.columns@),
                self.condition,
                self.distinct,
                self.offset,
                self.limit,
            ),
            r matches Err(e) ==> select_err_cases(conn.model(), self, e),
    {
        let ghost m = conn.model();
        let table = match &self.table {
            Some(t) => t,
            None => {
                return Err(QueryError::Validation(ValidationError::MissingFrom));
            },
        };
        let ti = match conn.find_table(&table.name) {
            Some(ti) => ti,
            None => {
                return Err(QueryError::Exec(ExecError::NoSuchTable(table.name.clone())));
            },
        };
        proof {
            lemma_table_index_unique(m, table.model().name, ti as int);
            assert(m.tables[ti as int] == conn.tables@[ti as int].model());
            assert(m.tables[ti as int].wf());
        }
        let ghost tm = m.tables[ti as int];
        let t = &conn.tables[ti];
        match t.descriptor.contains_all(&self.columns) {
            None => {},
            Some(bad) => {
                proof {
                    assert(strs(self.columns@)[bad as int] == self.columns@[bad as int]@);
                }
                return Err(
                    QueryError::Validation(
                        ValidationError::UnknownColumn(self.columns[bad].clone()),
                    ),
                );
            },
        }
        match &self.condition {
            None => {},
            Some(c) => {
                match render(c, &t.descriptor, ParamStyle::Question) {
                    Ok(_) => {},
                    Err(e) => {
                        return Err(QueryError::Validation(e));
                    },
                }
            },
        }
        let ghost colv = strs(self.columns@);
        let mut picked: Vec<Vec<(String, Value)>> = Vec::new();
        let mut i: usize = 0;
        while i < t.rows.len()
            invariant
                i <= t.rows@.len(),
                out_model(picked@) == project_all(
                    tm.descriptor,
                    filter_rows(tm.rows.subrange(0, i as int), self.condition, tm.descriptor),
                    colv,
                ),
            decreases t.rows@.len() - i,
        {
            let ghost fpre = filter_rows(tm.rows.subrange(0, i as int), self.condition, tm.descriptor);
            proof {
                assert(tm.rows[i as int] == row_model(t.rows@[i as int]@));
                assert(tm.rows[i as int].len() == tm.descriptor.columns.len());
                assert(tm.rows.subrange(0, i as int + 1).drop_last() =~= tm.rows.subrange(
                    0,
                    i as int,
                ));
                assert(tm.rows.subrange(0, i as int + 1).last() == tm.rows[i as int]);
            }
            let row = &t.rows[i];
            let keep = match &self.condition {
                None => true,
                Some(c) => eval_row(c, &t.descriptor, row),
            };
            if keep {
                let ghost picked_before = out_model(picked@);
                picked.push(project_row_exec(&t.descriptor, row, &self.columns));
                proof {
                    let fnow = filter_rows(
                        tm.rows.subrange(0, i as int + 1),
                        self.condition,
                        tm.descriptor,
                    );
                    assert(fnow =~= fpre.push(tm.rows[i as int]));
                    assert forall|x: int| 0 <= x < picked@.len() implies out_model(picked@)[x]
                        == project_all(tm.descriptor, fnow, colv)[x] by {
                        if x < picked_before.len() {
                            assert(out_model(picked@)[x] == picked_before[x]);
                        } else {
                            assert(out_model(picked@)[x] == out_row_m(picked@[x]@));
                        }
                    }
                    assert(out_model(picked@) =~= project_all(tm.descriptor, fnow, colv));
                }
            } else {
                proof {
                    assert(filter_rows(
                        tm.rows.subrange(0, i as int + 1),
                        self.condition,
                        tm.descriptor,
                    ) =~= fpre);
                }
            }
            i += 1;
        }
        proof {
            assert(tm.rows.subrange(0, tm.rows.len() as int) =~= tm.rows);
        }
        let rows2 = if self.distinct {
            let mut dd: Vec<Vec<(String, Value)>> = Vec::new();
            let ghost pm = out_model(picked@);
            let mut k: usize = 0;
            while k < picked.len()
                invariant
                    k <= picked@.len(),
                    out_model(dd@) == dedup_rows(pm.subrange(0, k as int)),
                decreases picked@.len() - k,
            {
                let ghost dpre = dedup_rows(pm.subrange(0, k as int));
                proof {
                    assert(pm.subrange(0, k as int + 1).drop_last() =~= pm.subrange(0, k as int));
                    assert(pm.subrange(0, k as int + 1).last() == pm[k as int]);
                    assert(pm[k as int] == out_row_m(picked@[k as int]@));
                }
                if !contains_row(&dd, &picked[k]) {
                    let ghost dd_before = out_model(dd@);
                    dd.push(row_out_copy(&picked[k]));
                    proof {
                        assert forall|x: int| 0 <= x < dd@.len() implies out_model(dd@)[x]
                            == dpre.push(pm[k as int])[x] by {
                            if x < dd_before.len() {
                                assert(out_model(dd@)[x] == dd_before[x]);
                            } else {
                                assert(out_model(dd@)[x] == out_row_m(dd@[x]@));
                            }
                        }
                        assert(out_model(dd@) =~= dpre.push(pm[k as int]));
                        assert(out_model(dd@) =~= dedup_rows(pm.subrange(0, k as int + 1)));
                    }
                } else {
                    proof {
                        assert(dedup_rows(pm.subrange(0, k as int + 1)) =~= dpre);
                    }
                }
                k += 1;
            }
            proof {
                assert(pm.subrange(0, pm.len() as int) =~= pm);
            }
            dd
        } else {
            picked
        };
        let ghost ddm = out_model(rows2@);
        let off = match self.offset {
            None => 0,
            Some(o) => o,
        };
        let start = if off > rows2.len() {
            rows2.len()
        } else {
            off
        };
        let end = match self.limit {
            None => rows2.len(),
            Some(l) => {
                if l > rows2.len() - start {
                    rows2.len()
                } else {
                    start + l
                }
            },
        };
        let mut out: Vec<Vec<(String, Value)>> = Vec::new();
        let mut idx: usize = start;
        while idx < end
            invariant
                start <= idx <= end <= rows2@.len(),
                out@.len() == idx - start,
                forall|x: int|
                    0 <= x < out@.len() ==> #[trigger] out_model(out@)[x] == ddm[start + x],
            decreases end - idx,
        {
            let ghost out_before = out_model(out@);
            out.push(row_out_copy(&rows2[idx]));
            proof {
                assert forall|x: int| 0 <= x < out@.len() implies #[trigger] out_model(out@)[x]
                    == ddm[start + x] by {
                    if x < out_before.len() {
                        assert(out_model(out@)[x] == out_before[x]);
                    } else {
                        assert(out_model(out@)[x] == out_row_m(out@[x]@));
                        assert(ddm[idx as int] == out_row_m(rows2@[idx as int]@));
                    }
                }
            }
            idx += 1;
        }
        proof {
            assert(out_model(out@) =~= page(ddm, self.offset, self.limit));
        }
        Ok(out)
    }
}

/// When no stored row passes the condition, the filter keeps nothing.
proof fn lemma_filter_none(rows: Seq<Seq<ValueModel>>, c: Option<Condition>, d: TableModel)
    requires
        forall|i: int| 0 <= i < rows.len() ==> !cond_matches(c, d, #[trigger] rows[i]),
    ensures
        filter_rows(rows, c, d) =~= Seq::<Seq<ValueModel>>::empty(),
    decreases rows.len(),
{
    if rows.len() > 0 {
        assert forall|i: int| 0 <= i < rows.drop_last().len() implies !cond_matches(
            c,
            d,
            #[trigger] rows.drop_last()[i],
        ) by {
            assert(rows.drop_last()[i] == rows[i]);
        }
        lemma_filter_none(rows.drop_last(), c, d);
        assert(rows.last() == rows[rows.len() - 1]);
    }
}

/// Round trip: inserting an entity and then selecting with a condition
/// that uniquely identifies it — true of its stored row, false of every
/// row already present — returns exactly one row, and that row carries the
/// entity's field values, coerced through the value model (an unset
/// auto-increment key having taken its assigned row id), each under its
/// column's name, in column order.
pub proof fn lemma_insert_select_round_trip(t: TableStateModel, e: EntityModel, c: Condition)
    requires
        t.wf(),
        e.values.len() == t.descriptor.columns.len(),
        c.cols_ok(t.descriptor),
        c.eval(t.descriptor, bind_row(t.descriptor, e.values, t.rows.len() as int + 1)),
        forall|i: int| 0 <= i < t.rows.len() ==> !c.eval(t.descriptor, #[trigger] t.rows[i]),
    ensures
        ({
            let stored = bind_row(t.descriptor, e.values, t.rows.len() as int + 1);
            let names = crate::schema::col_names(t.descriptor);
            let t2 = TableStateModel {
                descriptor: t.descriptor,
                rows: t.rows + bound_rows(t.descriptor, seq![e], t.rows.len() as int),
            };
            &&& t2.rows == t.rows.push(stored)
            &&& select_rows(t2, names, Some(c), false, None, None) == seq![
                project_row(t.descriptor, stored, names),
            ]
            &&& project_row(t.descriptor, stored, names).len() == t.descriptor.columns.len()
            &&& (forall|j: int|
                0 <= j < t.descriptor.columns.len() ==> project_row(t.descriptor, stored, names)[j]
                    == (t.descriptor.columns[j].name, stored[j]))
        }),
{
    let d = t.descriptor;
    let stored = bind_row(d, e.values, t.rows.len() as int + 1);
    let names = crate::schema::col_names(d);
    let t2 = TableStateModel {
        descriptor: d,
        rows: t.rows + bound_rows(d, seq![e], t.rows.len() as int),
    };
    assert(bound_rows(d, seq![e], t.rows.len() as int)[0] == stored);
    assert(t2.rows =~= t.rows.push(stored));
    let cnd = Some(c);
    assert forall|i: int| 0 <= i < t.rows.len() implies !cond_matches(
        cnd,
        d,
        #[trigger] t.rows[i],
    ) by {}
    lemma_filter_none(t.rows, cnd, d);
    assert(t2.rows.drop_last() =~= t.rows);
    assert(t2.rows.last() == stored);
    assert(cond_matches(cnd, d, stored));
    let filtered = filter_rows(t2.rows, cnd, d);
    assert(filtered =~= Seq::<Seq<ValueModel>>::empty().push(stored));
    assert(filtered =~= seq![stored]);
    let projected = project_all(d, filtered, names);
    assert(projected =~= seq![project_row(d, stored, names)]);
    assert(page(projected, None, None) =~= projected);
    assert(select_rows(t2, names, cnd, false, None, None) =~= seq![
        project_row(d, stored, names),
    ]);
    assert forall|j: int| 0 <= j < d.columns.len() implies project_row(d, stored, names)[j] == (
        d.columns[j].name,
        stored[j],
    ) by {
        assert(names[j] == d.columns[j].name);
        lemma_col_index_unique(d, names[j], j);
    }
}

/// Whether a match rank falls inside the OFFSET / LIMIT window.
pub open spec fn in_window(rank: int, offset: Option<usize>, limit: Option<usize>) -> bool {
    let off = match offset {
        None => 0int,
        Some(o) => o as int,
    };
    &&& rank >= off
    &&& match limit {
        None => true,
        Some(l) => rank < off + l,
    }
}

/// How many of the first `n` stored rows pass the condition.
pub open spec fn count_matches(
    rows: Seq<Seq<ValueModel>>,
    c: Option<Condition>,
    d: TableModel,
    n: int,
) -> int
    decreases n,
{
    if n <= 0 {
        0
    } else {
        count_matches(rows, c, d, n - 1) + if cond_matches(c, d, rows[n - 1]) {
            1int
        } else {
            0
        }
    }
}

/// One row after SET: each named column takes the entity's value at that
/// column's position; every other cell is unchanged.
pub open spec fn set_applied(
    d: TableModel,
    row: Seq<ValueModel>,
    vals: Seq<ValueModel>,
    sets: Seq<Seq<char>>,
) -> Seq<ValueModel> {
    Seq::new(
        row.len(),
        |i: int| if sets.contains(d.columns[i].name) {
            vals[i]
        } else {
            row[i]
        },
    )
}

/// The stored rows after an UPDATE: a row is rewritten exactly when it
/// passes the condition and its match rank falls inside the window; no
/// other row is touched.
pub open spec fn update_rows(
    rows: Seq<Seq<ValueModel>>,
    c: Option<Condition>,
    d: TableModel,
    vals: Seq<ValueModel>,
    sets: Seq<Seq<char>>,
    offset: Option<usize>,
    limit: Option<usize>,
) -> Seq<Seq<ValueModel>> {
    Seq::new(
        rows.len(),
        |i: int| if cond_matches(c, d, rows[i]) && in_window(
            count_matches(rows, c, d, i),
            offset,
            limit,
        ) {
            set_applied(d, rows[i], vals, sets)
        } else {
            rows[i]
        },
    )
}

/// How many of the first `n` stored rows an UPDATE rewrites.
pub open spec fn update_count(
    rows: Seq<Seq<ValueModel>>,
    c: Option<Condition>,
    d: TableModel,
    offset: Option<usize>,
    limit: Option<usize>,
    n: int,
) -> int
    decreases n,
{
    if n <= 0 {
        0
    } else {
        update_count(rows, c, d, offset, limit, n - 1) + if cond_matches(c, d, rows[n - 1])
            && in_window(count_matches(rows, c, d, n - 1), offset, limit) {
            1int
        } else {
            0
        }
    }
}

/// Whether one of the names is this column name.
fn contains_name(names: &Vec<String>, n: &String) -> (b: bool)
    ensures
        b == strs(names@).contains(n@),
{
    let mut i: usize = 0;
    while i < names.len()
        invariant
            i <= names@.len(),
            forall|j: int| 0 <= j < i ==> #[trigger] strs(names@)[j] != n@,
        decreases names@.len() - i,
    {
        if names[i] == *n {
            proof {
                assert(strs(names@)[i as int] == n@);
            }
            return true;
        }
        proof {
            assert(strs(names@)[i as int] == names@[i as int]@);
        }
        i += 1;
    }
    proof {
        assert forall|j: int| 0 <= j < strs(names@).len() implies strs(names@)[j] != n@ by {}
    }
    false
}

/// A comma-separated list of names.
pub open spec fn join_comma(cols: Seq<Seq<char>>) -> Seq<char>
    decreases cols.len(),
{
    if cols.len() == 0 {
        Seq::empty()
    } else if cols.len() == 1 {
        cols[0]
    } else {
        join_comma(cols.drop_last()) + ", "@ + cols.last()
    }
}

/// Appends the comma-separated names to `sql`.
#[verifier::loop_isolation(false)]
fn push_joined(names: &Vec<String>, sql: &mut String)
    ensures
        final(sql)@ == old(sql)@ + join_comma(strs(names@)),
{
    let mut i: usize = 0;
    while i < names.len()
        invariant
            i <= names@.len(),
            sql@ == old(sql)@ + join_comma(strs(names@).subrange(0, i as int)),
        decreases names@.len() - i,
    {
        if i > 0 {
            sql.append(", ");
        }
        sql.append(names[i].as_str());
        proof {
            reveal_strlit(", ");
            let pre = strs(names@).subrange(0, i as int);
            let now = strs(names@).subrange(0, i as int + 1);
            assert(now.drop_last() =~= pre);
            assert(now.last() == strs(names@)[i as int]);
            assert(strs(names@)[i as int] == names@[i as int]@);
            assert(sql@ =~= old(sql)@ + join_comma(now));
        }
        i += 1;
    }
    proof {
        assert(strs(names@).subrange(0, names@.len() as int) =~= strs(names@));
    }
}

/// The SQL text of a SELECT statement in the given placeholder dialect.
/// Literal values never appear in it: they travel in the parameter list.
pub open spec fn select_sql_spec(q: SelectQuery, style: ParamStyle) -> Seq<char> {
    "SELECT "@ + (if q.distinct {
        "DISTINCT "@
    } else {
        Seq::<char>::empty()
    }) + join_comma(strs(q.columns@)) + " FROM "@ + q.table->0.model().name + (match q.condition {
        None => Seq::<char>::empty(),
        Some(c) => " WHERE "@ + c.spec_sql(style, 0),
    }) + (match q.limit {
        None => Seq::<char>::empty(),
        Some(l) => " LIMIT "@ + crate::text::dec_digits(l as nat),
    }) + (match q.offset {
        None => Seq::<char>::empty(),
        Some(o) => " OFFSET "@ + crate::text::dec_digits(o as nat),
    })
}

impl SelectQuery {
    /// Lowers the staged statement to parameterized SQL for the given
    /// placeholder dialect, with the bound literal list in stable order,
    /// validating the stages against the `from` descriptor. Nothing is
    /// sent anywhere: this is the text a networked adapter would execute.
    pub fn to_sql(&self, style: ParamStyle) -> (r: Result<(String, Vec<String>), ValidationError>)
        requires
            self.table matches Some(t) ==> t.model().wf(),
        ensures
            (r is Ok) == (self.table is Some && (forall|j: int|
                0 <= j < self.columns@.len() ==> self.table->0.model().has_column(
                    #[trigger] strs(self.columns@)[j],
                )) && (match self.condition {
                None => true,
                Some(c) => c.cols_ok(self.table->0.model()),
            })),
            r matches Ok(p) ==> p.0@ == select_sql_spec(*self, style),
            r matches Ok(p) ==> strs(p.1@) == (match self.condition {
                None => Seq::<Seq<char>>::empty(),
                Some(c) => c.literals(),
            }),
            r is Err ==> (self.table is None ==> r matches Err(ValidationError::MissingFrom)),
            r is Err ==> (self.table is Some ==> (r matches Err(ValidationError::UnknownColumn(n))
                && !self.table->0.model().has_column(n@))),
    {
        let table = match &self.table {
            Some(t) => t,
            None => {
                return Err(ValidationError::MissingFrom);
            },
        };
        match table.contains_all(&self.columns) {
            None => {},
            Some(bad) => {
                proof {
                    assert(strs(self.columns@)[bad as int] == self.columns@[bad as int]@);
                }
                return Err(ValidationError::UnknownColumn(self.columns[bad].clone()));
            },
        }
        let mut sql = String::new();
        sql.append("SELECT ");
        if self.distinct {
            sql.append("DISTINCT ");
        }
        push_joined(&self.columns, &mut sql);
        sql.append(" FROM ");
        sql.append(table.name.as_str());
        let mut params: Vec<String> = Vec::new();
        match &self.condition {
            None => {},
            Some(c) => {
                sql.append(" WHERE ");
                match render(c, table, style) {
                    Ok(rendered) => {
                        let (cond_sql, cond_params) = rendered;
                        sql.append(cond_sql.as_str());
                        params = cond_params;
                    },
                    Err(e) => {
                        return Err(e);
                    },
                }
            },
        }
        match self.limit {
            None => {},
            Some(l) => {
                sql.append(" LIMIT ");
                let n = crate::text::u64_to_string(l as u64);
                sql.append(n.as_str());
            },
        }
        match self.offset {
            None => {},
            Some(o) => {
                sql.append(" OFFSET ");
                let n = crate::text::u64_to_string(o as u64);
                sql.append(n.as_str());
            },
        }
        proof {
            reveal_strlit("SELECT ");
            reveal_strlit("DISTINCT ");
            reveal_strlit(" FROM ");
            reveal_strlit(" WHERE ");
            reveal_strlit(" LIMIT ");
            reveal_strlit(" OFFSET ");
            assert(sql@ =~= select_sql_spec(*self, style));
        }
        Ok((sql, params))
    }
}

/// The SQL text of an INSERT statement for one row of this table: one
/// placeholder per column, bound positionally in descriptor order.
pub open spec fn insert_sql_spec(d: TableDescriptor, style: ParamStyle) -> Seq<char> {
    "INSERT INTO "@ + d.model().name + " ("@ + join_comma(crate::schema::col_names(d.model()))
        + ") VALUES ("@ + placeholders(style, d.model().columns.len() as int) + ")"@
}

/// `n` comma-separated placeholders, numbered from one.
pub open spec fn placeholders(style: ParamStyle, n: int) -> Seq<char>
    decreases n,
{
    if n <= 0 {
        Seq::empty()
    } else if n == 1 {
        crate::condition::placeholder(style, 0)
    } else {
        placeholders(style, n - 1) + ", "@ + crate::condition::placeholder(
            style,
            (n - 1) as nat,
        )
    }
}

/// Lowers an INSERT of one row into this table to parameterized SQL: the
/// cell values are bound positionally, never written into the text.
#[verifier::loop_isolation(false)]
pub fn insert_sql(d: &TableDescriptor, style: ParamStyle) -> (r: String)
    ensures
        r@ == insert_sql_spec(*d, style),
{
    let mut sql = String::new();
    sql.append("INSERT INTO ");
    sql.append(d.name.as_str());
    sql.append(" (");
    let mut names: Vec<String> = Vec::new();
    let mut i: usize = 0;
    while i < d.columns.len()
        invariant
            i <= d.columns@.len(),
            names@.len() == i,
            forall|j: int| 0 <= j < i ==> #[trigger] names@[j]@ == d.model().columns[j].name,
        decreases d.columns@.len() - i,
    {
        names.push(d.columns[i].name.clone());
        i += 1;
    }
    proof {
        assert(strs(names@) =~= crate::schema::col_names(d.model()));
    }
    push_joined(&names, &mut sql);
    sql.append(") VALUES (");
    let mut k: usize = 0;
    while k < d.columns.len()
        invariant
            k <= d.columns@.len(),
            sql@ == "INSERT INTO "@ + d.model().name + " ("@ + join_comma(
                crate::schema::col_names(d.model()),
            ) + ") VALUES ("@ + placeholders(style, k as int),
        decreases d.columns@.len() - k,
    {
        if k > 0 {
            sql.append(", ");
        }
        crate::condition::push_placeholder(style, k as u64, &mut sql);
        proof {
            reveal_strlit(", ");
            assert(sql@ =~= "INSERT INTO "@ + d.model().name + " ("@ + join_comma(
                crate::schema::col_names(d.model()),
            ) + ") VALUES ("@ + placeholders(style, k as int + 1));
        }
        k += 1;
    }
    sql.append(")");
    proof {
        reveal_strlit("INSERT INTO ");
        reveal_strlit(" (");
        reveal_strlit(") VALUES (");
        reveal_strlit(")");
        assert(sql@ =~= insert_sql_spec(*d, style));
    }
    sql
}

/// The SQL text of a DROP TABLE statement for this table.
pub fn drop_table_sql(d: &TableDescriptor) -> (r: String)
    ensures
        r@ == "DROP TABLE "@ + d.model().name,
{
    let mut sql = String::new();
    sql.append("DROP TABLE ");
    sql.append(d.name.as_str());
    proof {
        reveal_strlit("DROP TABLE ");
        assert(sql@ =~= "DROP TABLE "@ + d.model().name);
    }
    sql
}

/// A staged UPDATE statement: the entity supplies the new values, `set`
/// restricts which columns are rewritten, and the condition picks the rows.
///
/// Omitting `where_clause` updates every row of the table — a deliberate,
/// dangerous choice that the caller must make explicitly, never a silent
/// default.
#[derive(Debug)]
pub struct UpdateQuery {
    pub entity: Entity,
    pub set_columns: Option<Vec<String>>,
    pub condition: Option<Condition>,
    pub limit: Option<usize>,
    pub offset: Option<usize>,
}

/// Begins an UPDATE of the entity's table, taking new values from it.
pub fn update(entity: Entity) -> (q: UpdateQuery)
    ensures
        q.entity == entity,
        q.set_columns is None,
        q.condition is None,
        q.limit is None,
        q.offset is None,
{
    UpdateQuery { entity, set_columns: None, condition: None, limit: None, offset: None }
}

/// When an UPDATE succeeds: a `set` stage naming existing columns, an
/// existing table, the right arity, and a valid condition.
pub open spec fn update_ok(m: ConnectionModel, q: UpdateQuery) -> bool {
    &&& q.set_columns is Some
    &&& m.has_table(q.entity.model().table)
    &&& {
        let t = m.tables[m.table_index(q.entity.model().table)];
        &&& q.entity.model().values.len() == t.descriptor.columns.len()
        &&& (forall|j: int|
            0 <= j < q.set_columns->0@.len() ==> t.descriptor.has_column(
                #[trigger] strs(q.set_columns->0@)[j],
            ))
        &&& (match q.condition {
            None => true,
            Some(c) => c.cols_ok(t.descriptor),
        })
    }
}

/// Which error an UPDATE reports, by cause.
pub open spec fn update_err_cases(m: ConnectionModel, q: UpdateQuery, e: QueryError) -> bool {
    if q.set_columns is None {
        e matches QueryError::Validation(ValidationError::MissingSet)
    } else if !m.has_table(q.entity.model().table) {
        e matches QueryError::Exec(ExecError::NoSuchTable(n)) && n@ == q.entity.model().table
    } else {
        let d = m.tables[m.table_index(q.entity.model().table)].descriptor;
        if q.entity.model().values.len() != d.columns.len() {
            e matches QueryError::Validation(ValidationError::ArityMismatch)
        } else if !(forall|j: int|
            0 <= j < q.set_columns->0@.len() ==> d.has_column(
                #[trigger] strs(q.set_columns->0@)[j],
            )) {
            e matches QueryError::Validation(ValidationError::UnknownColumn(n)) && !d.has_column(
                n@,
            ) && (exists|j: int|
                0 <= j < q.set_columns->0@.len() && strs(q.set_columns->0@)[j] == n@)
        } else {
            e matches QueryError::Validation(ValidationError::UnknownColumn(n)) && !d.has_column(
                n@,
            ) && n@ == q.condition->0.first_missing(d)
        }
    }
}

impl UpdateQuery {
    /// Restricts the UPDATE to rewrite only the named columns.
    pub fn set(self, columns: Vec<String>) -> (q: Self)
        ensures
            q.set_columns == Some(columns),
            q.entity == self.entity,
            q.condition == self.condition,
            q.limit == self.limit,
            q.offset == self.offset,
    {
        UpdateQuery { set_columns: Some(columns), ..self }
    }

    /// Restricts the UPDATE to rows passing the condition.
    pub fn where_clause(self, condition: Condition) -> (q: Self)
        ensures
            q.condition == Some(condition),
            q.entity == self.entity,
            q.set_columns == self.set_columns,
            q.limit == self.limit,
            q.offset == self.offset,
    {
        UpdateQuery { condition: Some(condition), ..self }
    }

    /// Rewrites at most `n` matching rows.
    pub fn limit(self, n: usize) -> (q: Self)
        ensures
            q.limit == Some(n),
            q.entity == self.entity,
            q.set_columns == self.set_columns,
            q.condition == self.condition,
            q.offset == self.offset,
    {
        UpdateQuery { limit: Some(n), ..self }
    }

    /// Skips the first `n` matching rows.
    pub fn offset(self, n: usize) -> (q: Self)
        ensures
            q.offset == Some(n),
            q.entity == self.entity,
            q.set_columns == self.set_columns,
            q.condition == self.condition,
            q.limit == self.limit,
    {
        UpdateQuery { offset: Some(n), ..self }
    }

    /// Validates the staged statement and executes it: rewrites the SET
    /// columns of exactly the rows that match the condition and fall in
    /// the OFFSET / LIMIT window — never any other row, and never more
    /// than the limit. Returns how many rows were rewritten; on any
    /// failure the connection is unchanged.
    #[verifier::loop_isolation(false)]
    pub fn build(self, conn: &mut Connection) -> (r: Result<usize, QueryError>)
        requires
            old(conn).model().wf(),
        ensures
            final(conn).model().wf(),
            (r is Ok) == update_ok(old(conn).model(), self),
            r matches Ok(n) ==> {
                let m0 = old(conn).model();
                let ti = m0.table_index(self.entity.model().table);
                let t = m0.tables[ti];
                &&& final(conn).model().name == m0.name
                &&& final(conn).model().tables == m0.tables.update(
                    ti,
                    TableStateModel {
                        descriptor: t.descriptor,
                        rows: update_rows(
                            t.rows,
                            self.condition,
                            t.descriptor,
                            self.entity.model().values,
                            strs(self.set_columns->0@),
                            self.offset,
                            self.limit,
                        ),
                    },
                )
                &&& n == update_count(
                    t.rows,
                    self.condition,
                    t.descriptor,
                    self.offset,
                    self.limit,
                    t.rows.len() as int,
                )
            },
            r is Err ==> final(conn).model() == old(conn).model(),
            r matches Err(e) ==> update_err_cases(old(conn).model(), self, e),
    {
        let ghost m0 = conn.model();
        let sets = match &self.set_columns {
            Some(s) => s,
            None => {
                return Err(QueryError::Validation(ValidationError::MissingSet));
            },
        };
        let ti = match conn.find_table(&self.entity.descriptor.name) {
            Some(ti) => ti,
            None => {
                return Err(
                    QueryError::Exec(ExecError::NoSuchTable(self.entity.descriptor.name.clone())),
                );
            },
        };
        proof {
            lemma_table_index_unique(m0, self.entity.model().table, ti as int);
            assert(m0.tables[ti as int] == conn.tables@[ti as int].model());
            assert(m0.tables[ti as int].wf());
        }
        let ghost tm = m0.tables[ti as int];
        let ncols = conn.tables[ti].descriptor.columns.len();
        if self.entity.values.len() != ncols {
            return Err(QueryError::Validation(ValidationError::ArityMismatch));
        }
        match conn.tables[ti].descriptor.contains_all(sets) {
            None => {},
            Some(bad) => {
                proof {
                    assert(strs(sets@)[bad as int] == sets@[bad as int]@);
                }
                return Err(
                    QueryError::Validation(ValidationError::UnknownColumn(sets[bad].clone())),
                );
            },
        }
        match &self.condition {
            None => {},
            Some(c) => {
                match render(c, &conn.tables[ti].descriptor, ParamStyle::Question) {
                    Ok(_) => {},
                    Err(e) => {
                        return Err(QueryError::Validation(e));
                    },
                }
            },
        }
        let ghost d = tm.descriptor;
        let ghost vals = row_model(self.entity.values@);
        let ghost setv = strs(sets@);
        let ghost goal = update_rows(tm.rows, self.condition, d, vals, setv, self.offset, self.limit);
        let mut t = conn.tables.remove(ti);
        proof {
            assert(t.model() == tm);
        }
        let off = match self.offset {
            None => 0,
            Some(o) => o,
        };
        let mut matched: usize = 0;
        let mut updated: usize = 0;
        let mut i: usize = 0;
        while i < t.rows.len()
            invariant
                i <= t.rows@.len(),
                t.rows@.len() == tm.rows.len(),
                t.descriptor.model() == d,
                matched <= i,
                updated <= i,
                matched == count_matches(tm.rows, self.condition, d, i as int),
                updated == update_count(
                    tm.rows,
                    self.condition,
                    d,
                    self.offset,
                    self.limit,
                    i as int,
                ),
                t.model().rows.len() == tm.rows.len(),
                forall|x: int| 0 <= x < i ==> #[trigger] t.model().rows[x] == goal[x],
                forall|x: int| i <= x < tm.rows.len() ==> #[trigger] t.model().rows[x] == tm.rows[x],
            decreases t.rows@.len() - i,
        {
            proof {
                assert(t.model().rows[i as int] == row_model(t.rows@[i as int]@));
                assert(tm.rows[i as int].len() == d.columns.len());
            }
            let is_match = match &self.condition {
                None => true,
                Some(c) => eval_row(c, &t.descriptor, &t.rows[i]),
            };
            if is_match {
                let in_win = matched >= off && (match self.limit {
                    None => true,
                    Some(l) => matched - off < l,
                });
                proof {
                    assert(in_win == in_window(
                        count_matches(tm.rows, self.condition, d, i as int),
                        self.offset,
                        self.limit,
                    ));
                }
                if in_win {
                    let mut row: Vec<Value> = Vec::new();
                    let mut j: usize = 0;
                    while j < ncols
                        invariant
                            j <= ncols,
                            i < t.rows@.len() == tm.rows.len(),
                            row@.len() == j,
                            forall|x: int|
                                0 <= x < j ==> (#[trigger] row@[x]).model() == set_applied(
                                    d,
                                    tm.rows[i as int],
                                    vals,
                                    setv,
                                )[x],
                        decreases ncols - j,
                    {
                        proof {
                            assert(d.columns[j as int] == t.descriptor.columns@[j as int].model());
                            assert(vals[j as int] == self.entity.values@[j as int].model());
                            assert(tm.rows[i as int][j as int] == t.rows@[i as int]@[
                                j as int
                            ].model());
                        }
                        let cell = if contains_name(sets, &t.descriptor.columns[j].name) {
                            value_copy(&self.entity.values[j])
                        } else {
                            value_copy(&t.rows[i][j])
                        };
                        row.push(cell);
                        j += 1;
                    }
                    proof {
                        assert(row_model(row@) =~= set_applied(d, tm.rows[i as int], vals, setv));
                    }
                    let ghost rows_before = t.model().rows;
                    let ghost rv = t.rows@;
                    t.rows.remove(i);
                    t.rows.insert(i, row);
                    proof {
                        assert(t.rows@ =~= rv.update(i as int, row));
                        assert forall|x: int|
                            0 <= x < t.model().rows.len() && x != i as int implies #[trigger] t
                            .model().rows[x] == rows_before[x] by {
                            assert(t.model().rows[x] == row_model(t.rows@[x]@));
                            assert(t.rows@[x] == rv[x]);
                            assert(rows_before[x] == row_model(rv[x]@));
                        }
                        assert(t.model().rows[i as int] == row_model(row@));
                    }
                    updated += 1;
                }
                matched += 1;
            }
            proof {
                assert(count_matches(tm.rows, self.condition, d, i as int + 1) == count_matches(
                    tm.rows,
                    self.condition,
                    d,
                    i as int,
                ) + if cond_matches(self.condition, d, tm.rows[i as int]) {
                    1int
                } else {
                    0
                });
                assert(update_count(tm.rows, self.condition, d, self.offset, self.limit, i as int
                    + 1) == update_count(tm.rows, self.condition, d, self.offset, self.limit, i as int)
                    + if cond_matches(self.condition, d, tm.rows[i as int]) && in_window(
                    count_matches(tm.rows, self.condition, d, i as int),
                    self.offset,
                    self.limit,
                ) {
                    1int
                } else {
                    0
                });
            }
            i += 1;
        }
        proof {
            assert(t.model().rows =~= goal);
            assert forall|x: int| 0 <= x < t.model().rows.len() implies #[trigger] t.model().rows[
                x
            ].len() == t.model().descriptor.columns.len() by {
                if cond_matches(self.condition, d, tm.rows[x]) && in_window(
                    count_matches(tm.rows, self.condition, d, x),
                    self.offset,
                    self.limit,
                ) {
                    assert(goal[x] == set_applied(d, tm.rows[x], vals, setv));
                } else {
                    assert(goal[x] == tm.rows[x]);
                }
            }
            assert(t.model().wf());
        }
        conn.tables.insert(ti, t);
        proof {
            let newt = TableStateModel { descriptor: tm.descriptor, rows: goal };
            assert(t.model() == newt);
            assert forall|x: int| 0 <= x < conn.model().tables.len() implies conn.model().tables[x]
                == m0.tables.update(ti as int, newt)[x] by {
                assert(conn.model().tables[x] == conn.tables@[x].model());
                if x < ti as int {
                    assert(m0.tables[x] == old(conn).tables@[x].model());
                } else if x > ti as int {
                    assert(m0.tables[x] == old(conn).tables@[x].model());
                }
            }
            assert(conn.model().tables =~= m0.tables.update(ti as int, newt));
            lemma_update_keeps_wf(m0, conn.model(), ti as int);
        }
        Ok(updated)
    }
}

/// The SET clause of an UPDATE: each named column assigned its
/// placeholder, numbered from one, comma-separated.
pub open spec fn set_assignments(style: ParamStyle, names: Seq<Seq<char>>) -> Seq<char>
    decreases names.len(),
{
    if names.len() == 0 {
        Seq::empty()
    } else if names.len() == 1 {
        names[0] + " = "@ + crate::condition::placeholder(style, 0)
    } else {
        set_assignments(style, names.drop_last()) + ", "@ + names.last() + " = "@
            + crate::condition::placeholder(style, (names.len() - 1) as nat)
    }
}

/// The SQL text of an UPDATE statement in the given placeholder dialect:
/// the SET values take the first parameter positions, the condition's
/// literals follow. No value appears in the text.
pub open spec fn update_sql_spec(q: UpdateQuery, style: ParamStyle) -> Seq<char> {
    "UPDATE "@ + q.entity.descriptor.model().name + " SET "@ + set_assignments(
        style,
        strs(q.set_columns->0@),
    ) + (match q.condition {
        None => Seq::<char>::empty(),
        Some(c) => " WHERE "@ + c.spec_sql(style, q.set_columns->0@.len() as nat),
    }) + (match q.limit {
        None => Seq::<char>::empty(),
        Some(l) => " LIMIT "@ + crate::text::dec_digits(l as nat),
    }) + (match q.offset {
        None => Seq::<char>::empty(),
        Some(o) => " OFFSET "@ + crate::text::dec_digits(o as nat),
    })
}

impl UpdateQuery {
    /// Lowers the staged statement to parameterized SQL for the given
    /// placeholder dialect, validated against the entity's descriptor.
    /// The returned parameter list holds the condition's literals; the SET
    /// values are bound positionally before them, straight from the
    /// entity, and never written into the text.
    #[verifier::loop_isolation(false)]
    #[verifier::rlimit(60)]
    pub fn to_sql(&self, style: ParamStyle) -> (r: Result<(String, Vec<String>), ValidationError>)
        requires
            self.entity.descriptor.model().wf(),
            (match self.set_columns {
                None => 0int,
                Some(s) => s@.len() as int,
            }) + (match self.condition {
                None => 0int,
                Some(c) => c.literals().len() as int,
            }) <= u64::MAX,
        ensures
            (r is Ok) == (self.set_columns is Some && (forall|j: int|
                0 <= j < self.set_columns->0@.len() ==> self.entity.descriptor.model().has_column(
                    #[trigger] strs(self.set_columns->0@)[j],
                )) && (match self.condition {
                None => true,
                Some(c) => c.cols_ok(self.entity.descriptor.model()),
            })),
            r matches Ok(p) ==> p.0@ == update_sql_spec(*self, style),
            r matches Ok(p) ==> strs(p.1@) == (match self.condition {
                None => Seq::<Seq<char>>::empty(),
                Some(c) => c.literals(),
            }),
            r is Err ==> (self.set_columns is None ==> r matches Err(ValidationError::MissingSet)),
            r is Err ==> (self.set_columns is Some ==> (r matches Err(
                ValidationError::UnknownColumn(n),
            ) && !self.entity.descriptor.model().has_column(n@))),
    {
        let sets = match &self.set_columns {
            Some(s) => s,
            None => {
                return Err(ValidationError::MissingSet);
            },
        };
        match self.entity.descriptor.contains_all(sets) {
            None => {},
            Some(bad) => {
                proof {
                    assert(strs(sets@)[bad as int] == sets@[bad as int]@);
                }
                return Err(ValidationError::UnknownColumn(sets[bad].clone()));
            },
        }
        let mut sql = String::new();
        sql.append("UPDATE ");
        sql.append(self.entity.descriptor.name.as_str());
        sql.append(" SET ");
        let ghost head = sql@;
        let mut j: usize = 0;
        while j < sets.len()
            invariant
                j <= sets@.len(),
                sql@ == head + set_assignments(style, strs(sets@).subrange(0, j as int)),
            decreases sets@.len() - j,
        {
            if j > 0 {
                sql.append(", ");
            }
            sql.append(sets[j].as_str());
            sql.append(" = ");
            crate::condition::push_placeholder(style, j as u64, &mut sql);
            proof {
                reveal_strlit(", ");
                reveal_strlit(" = ");
                let pre = strs(sets@).subrange(0, j as int);
                let now = strs(sets@).subrange(0, j as int + 1);
                assert(now.drop_last() =~= pre);
                assert(now.last() == strs(sets@)[j as int]);
                assert(strs(sets@)[j as int] == sets@[j as int]@);
                assert(sql@ =~= head + set_assignments(style, now));
            }
            j += 1;
        }
        proof {
            assert(strs(sets@).subrange(0, sets@.len() as int) =~= strs(sets@));
        }
        let mut params: Vec<String> = Vec::new();
        match &self.condition {
            None => {},
            Some(c) => {
                sql.append(" WHERE ");
                match crate::condition::render_from(c, &self.entity.descriptor, style, sets.len())
                {
                    Ok(rendered) => {
                        let (cond_sql, cond_params) = rendered;
                        sql.append(cond_sql.as_str());
                        params = cond_params;
                    },
                    Err(e) => {
                        return Err(e);
                    },
                }
            },
        }
        match self.limit {
            None => {},
            Some(l) => {
                sql.append(" LIMIT ");
                let n = crate::text::u64_to_string(l as u64);
                sql.append(n.as_str());
            },
        }
        match self.offset {
            None => {},
            Some(o) => {
                sql.append(" OFFSET ");
                let n = crate::text::u64_to_string(o as u64);
                sql.append(n.as_str());
            },
        }
        proof {
            reveal_strlit("UPDATE ");
            reveal_strlit(" SET ");
            reveal_strlit(" WHERE ");
            reveal_strlit(" LIMIT ");
            reveal_strlit(" OFFSET ");
            assert(sql@ =~= update_sql_spec(*self, style));
        }
        Ok((sql, params))
    }
}

/// Drops the named table whole.
///
/// Dropping a table that is absent is always an error — `NoSuchTable` —
/// never a silent no-op, uniformly for every entity and every connection.
pub fn drop_table(conn: &mut Connection, table: &TableDescriptor) -> (r: Result<(), QueryError>)
    requires
        old(conn).model().wf(),
    ensures
        final(conn).model().wf(),
        (r is Ok) == old(conn).model().has_table(table.model().name),
        r is Ok ==> {
            &&& final(conn).model().name == old(conn).model().name
            &&& final(conn).model().tables == old(conn).model().tables.remove(
                old(conn).model().table_index(table.model().name),
            )
        },
        r is Err ==> final(conn).model() == old(conn).model(),
        r is Err ==> (r matches Err(QueryError::Exec(ExecError::NoSuchTable(n))) && n@
            == table.model().name),
{
    let ghost m0 = conn.model();
    match conn.find_table(&table.name) {
        None => Err(QueryError::Exec(ExecError::NoSuchTable(table.name.clone()))),
        Some(ti) => {
            proof {
                lemma_table_index_unique(m0, table.model().name, ti as int);
            }
            conn.tables.remove(ti);
            proof {
                assert forall|x: int| 0 <= x < conn.model().tables.len() implies conn.model(
                ).tables[x] == m0.tables.remove(ti as int)[x] by {
                    assert(conn.model().tables[x] == conn.tables@[x].model());
                    if x < ti as int {
                        assert(m0.tables[x] == old(conn).tables@[x].model());
                    } else {
                        assert(m0.tables[x + 1] == old(conn).tables@[x + 1].model());
                    }
                }
                assert(conn.model().tables =~= m0.tables.remove(ti as int));
                assert forall|i: int, j: int|
                    0 <= i < j < conn.model().tables.len() implies conn.model(
                ).tables[i].descriptor.name != conn.model().tables[j].descriptor.name by {
                    let ii = if i < ti as int { i } else { i + 1 };
                    let jj = if j < ti as int { j } else { j + 1 };
                    assert(conn.model().tables[i] == m0.tables[ii]);
                    assert(conn.model().tables[j] == m0.tables[jj]);
                }
            }
            Ok(())
        },
    }
}

} // verus!
