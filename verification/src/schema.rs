//! Schema descriptors: per-entity metadata naming a table and its ordered
//! columns. A descriptor is built once for an entity type and passed by
//! reference wherever that table is needed; column order is stable and
//! determines positional binding order for INSERT.

use vstd::prelude::*;

verus! {

/// The declared SQL type of a column.
#[derive(Clone, Copy, Debug, PartialEq, Eq, Structural)]
pub enum SqlType {
    Integer,
    Real,
    Text,
    Blob,
}

/// One column definition: name, declared type, auto-increment primary-key
/// flag, and nullability.
#[derive(Debug)]
pub struct Column {
    pub name: String,
    pub sql_type: SqlType,
    pub primary_key_auto: bool,
    pub nullable: bool,
}

/// The mathematical model of a column definition.
pub struct ColumnModel {
    pub name: Seq<char>,
    pub sql_type: SqlType,
    pub primary_key_auto: bool,
    pub nullable: bool,
}

impl Column {
    pub open spec fn model(self) -> ColumnModel {
        ColumnModel {
            name: self.name@,
            sql_type: self.sql_type,
            primary_key_auto: self.primary_key_auto,
            nullable: self.nullable,
        }
    }
}

/// Per-entity metadata: the table name and its ordered column definitions.
#[derive(Debug)]
pub struct TableDescriptor {
    pub name: String,
    pub columns: Vec<Column>,
}

/// The mathematical model of a table descriptor.
pub struct TableModel {
    pub name: Seq<char>,
    pub columns: Seq<ColumnModel>,
}

impl TableModel {
    /// Whether a column of this name exists.
    pub open spec fn has_column(self, n: Seq<char>) -> bool {
        exists|i: int| 0 <= i < self.columns.len() && self.columns[i].name == n
    }

    /// The position of the column of this name. Under [`TableModel::wf`]
    /// column names are distinct, so the position is unique.
    pub open spec fn col_index(self, n: Seq<char>) -> int {
        choose|i: int| 0 <= i < self.columns.len() && self.columns[i].name == n
    }

    /// Column names are pairwise distinct.
    pub open spec fn distinct_names(self) -> bool {
        forall|i: int, j: int|
            0 <= i < j < self.columns.len() ==> self.columns[i].name != self.columns[j].name
    }

    /// Well-formedness: a named table with at least one column, pairwise
    /// distinct column names, and at most one auto-increment primary key.
    pub open spec fn wf(self) -> bool {
        &&& self.name.len() > 0
        &&& self.columns.len() > 0
        &&& self.distinct_names()
        &&& forall|i: int, j: int|
            0 <= i < j < self.columns.len() ==> !(self.columns[i].primary_key_auto
                && self.columns[j].primary_key_auto)
    }
}

impl TableDescriptor {
    pub open spec fn model(self) -> TableModel {
        TableModel {
            name: self.name@,
            columns: self.columns@.map_values(|c: Column| c.model()),
        }
    }

    /// The position of the column named `n`, if any.
    ///
    /// Returns the first matching position; under [`TableModel::wf`] it is
    /// the only one.
    pub fn find_column(&self, n: &String) -> (r: Option<usize>)
        ensures
            r is Some ==> {
                &&& 0 <= r->0 < self.model().columns.len()
                &&& self.model().columns[r->0 as int].name == n@
            },
            r is None ==> !self.model().has_column(n@),
            (r is Some) == self.model().has_column(n@),
    {
        let mut i: usize = 0;
        while i < self.columns.len()
            invariant
                i <= self.columns@.len(),
                self.model().columns.len() == self.columns@.len(),
                forall|j: int| 0 <= j < i ==> self.model().columns[j].name != n@,
            decreases self.columns@.len() - i,
        {
            if self.columns[i].name == *n {
                return Some(i);
            }
            i += 1;
        }
        None
    }

    /// Whether every name in `cols` names a column of this table.
    pub fn contains_all(&self, cols: &Vec<String>) -> (r: Option<usize>)
        ensures
            r is None ==> forall|j: int|
                0 <= j < cols@.len() ==> self.model().has_column(#[trigger] cols@[j]@),
            r is Some ==> {
                &&& 0 <= r->0 < cols@.len()
                &&& !self.model().has_column(cols@[r->0 as int]@)
            },
    {
        let mut i: usize = 0;
        while i < cols.len()
            invariant
                i <= cols@.len(),
                forall|j: int| 0 <= j < i ==> self.model().has_column(#[trigger] cols@[j]@),
            decreases cols@.len() - i,
        {
            if self.find_column(&cols[i]).is_none() {
                return Some(i);
            }
            i += 1;
        }
        None
    }
}

/// The column names of a table, in descriptor order.
pub open spec fn col_names(d: TableModel) -> Seq<Seq<char>> {
    Seq::new(d.columns.len(), |i: int| d.columns[i].name)
}

/// Under a well-formed model column names are distinct, so a position whose
/// column bears the name is the position [`TableModel::col_index`] picks.
pub proof fn lemma_col_index_unique(m: TableModel, n: Seq<char>, i: int)
    requires
        m.wf(),
        0 <= i < m.columns.len(),
        m.columns[i].name == n,
    ensures
        m.has_column(n),
        m.col_index(n) == i,
{
    assert(m.has_column(n));
    let j = m.col_index(n);
    assert(0 <= j < m.columns.len() && m.columns[j].name == n);
    if i < j {
        assert(m.columns[i].name != m.columns[j].name);
    } else if j < i {
        assert(m.columns[j].name != m.columns[i].name);
    }
}

/// A copy of a column definition with the same model.
pub fn column_copy(c: &Column) -> (r: Column)
    ensures
        r.model() == c.model(),
{
    Column {
        name: c.name.clone(),
        sql_type: c.sql_type,
        primary_key_auto: c.primary_key_auto,
        nullable: c.nullable,
    }
}

/// A copy of a table descriptor with the same model.
pub fn descriptor_copy(d: &TableDescriptor) -> (r: TableDescriptor)
    ensures
        r.model() == d.model(),
{
    let mut columns: Vec<Column> = Vec::new();
    let mut i: usize = 0;
    while i < d.columns.len()
        invariant
            i <= d.columns@.len(),
            columns@.len() == i,
            forall|j: int|
                0 <= j < i ==> #[trigger] columns@[j].model() == d.columns@[j].model(),
        decreases d.columns@.len() - i,
    {
        columns.push(column_copy(&d.columns[i]));
        i += 1;
    }
    let r = TableDescriptor { name: d.name.clone(), columns };
    proof {
        assert(r.model().columns =~= d.model().columns);
        assert(r.model() =~= d.model());
    }
    r
}

} // verus!
