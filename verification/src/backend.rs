//! The in-memory backend adapter: a connection owning a set of tables, with
//! fully specified open / init semantics. Statement execution lives with the
//! query builders; adapters for networked backends reuse the same rendering
//! and differ only in dialect, behind the same contract surface.

use vstd::prelude::*;

verus! {

use vstd::string::StrSliceExecFns;
use vstd::string::StringExecFns;
use crate::error::{ConnectError, SchemaError};
use crate::schema::{Column, TableDescriptor, TableModel, descriptor_copy};
use crate::value::{Value, row_model};

/// One table held by the in-memory backend: its descriptor and its stored
/// rows, each row one cell per column in descriptor order.
#[derive(Debug)]
pub struct TableState {
    pub descriptor: TableDescriptor,
    pub rows: Vec<Vec<Value>>,
}

/// The mathematical model of a stored table.
pub struct TableStateModel {
    pub descriptor: TableModel,
    pub rows: Seq<Seq<crate::value::ValueModel>>,
}

impl TableStateModel {
    /// Well-formedness: the descriptor is well-formed, every row has one
    /// cell per column, and the row count leaves room for `i64` row ids.
    pub open spec fn wf(self) -> bool {
        &&& self.descriptor.wf()
        &&& forall|i: int|
            0 <= i < self.rows.len() ==> #[trigger] self.rows[i].len()
                == self.descriptor.columns.len()
        &&& self.rows.len() <= i64::MAX
    }
}

impl TableState {
    pub open spec fn model(self) -> TableStateModel {
        TableStateModel {
            descriptor: self.descriptor.model(),
            rows: self.rows@.map_values(|r: Vec<Value>| row_model(r@)),
        }
    }
}

/// An exclusive connection to the in-memory backend: a named database and
/// its tables. A connection is owned by the caller that opened it and is
/// never shared.
#[derive(Debug)]
pub struct Connection {
    pub name: String,
    pub tables: Vec<TableState>,
}

/// The mathematical model of a connection.
pub struct ConnectionModel {
    pub name: Seq<char>,
    pub tables: Seq<TableStateModel>,
}

impl ConnectionModel {
    /// Whether a table of this name exists.
    pub open spec fn has_table(self, n: Seq<char>) -> bool {
        exists|i: int| 0 <= i < self.tables.len() && self.tables[i].descriptor.name == n
    }

    /// The position of the table of this name. Under [`ConnectionModel::wf`]
    /// table names are distinct, so the position is unique.
    pub open spec fn table_index(self, n: Seq<char>) -> int {
        choose|i: int| 0 <= i < self.tables.len() && self.tables[i].descriptor.name == n
    }

    /// Well-formedness: every table is well-formed and table names are
    /// pairwise distinct.
    pub open spec fn wf(self) -> bool {
        &&& forall|i: int| 0 <= i < self.tables.len() ==> #[trigger] self.tables[i].wf()
        &&& forall|i: int, j: int|
            0 <= i < j < self.tables.len() ==> self.tables[i].descriptor.name
                != self.tables[j].descriptor.name
    }
}

impl Connection {
    pub open spec fn model(self) -> ConnectionModel {
        ConnectionModel {
            name: self.name@,
            tables: self.tables@.map_values(|t: TableState| t.model()),
        }
    }

    /// The position of the table named `n`, if any.
    pub fn find_table(&self, n: &String) -> (r: Option<usize>)
        ensures
            r is Some ==> {
                &&& 0 <= r->0 < self.model().tables.len()
                &&& self.model().tables[r->0 as int].descriptor.name == n@
            },
            (r is Some) == self.model().has_table(n@),
    {
        let mut i: usize = 0;
        while i < self.tables.len()
            invariant
                i <= self.tables@.len(),
                self.model().tables.len() == self.tables@.len(),
                forall|j: int|
                    0 <= j < i ==> #[trigger] self.model().tables[j].descriptor.name != n@,
            decreases self.tables@.len() - i,
        {
            if self.tables[i].descriptor.name == *n {
                proof {
                    assert(self.model().tables[i as int] == self.tables@[i as int].model());
                }
                return Some(i);
            }
            i += 1;
        }
        None
    }
}

/// Under a well-formed connection table names are distinct, so a position
/// whose table bears the name is the one [`ConnectionModel::table_index`]
/// picks.
pub proof fn lemma_table_index_unique(m: ConnectionModel, n: Seq<char>, i: int)
    requires
        m.wf(),
        0 <= i < m.tables.len(),
        m.tables[i].descriptor.name == n,
    ensures
        m.has_table(n),
        m.table_index(n) == i,
{
    assert(m.has_table(n));
    let j = m.table_index(n);
    assert(0 <= j < m.tables.len() && m.tables[j].descriptor.name == n);
    if i < j {
        assert(m.tables[i].descriptor.name != m.tables[j].descriptor.name);
    } else if j < i {
        assert(m.tables[j].descriptor.name != m.tables[i].descriptor.name);
    }
}

/// Opens a connection to the named in-memory database.
///
/// Succeeds exactly when the name is nonempty; the fresh connection holds
/// no tables.
pub fn open(name: &str) -> (r: Result<Connection, ConnectError>)
    ensures
        (r is Ok) == (name@.len() > 0),
        r matches Ok(c) ==> {
            &&& c.model().name == name@
            &&& c.model().tables =~= Seq::<TableStateModel>::empty()
            &&& c.model().wf()
        },
        r is Err ==> r matches Err(ConnectError::EmptyName),
{
    if name.unicode_len() == 0 {
        Err(ConnectError::EmptyName)
    } else {
        let c = Connection { name: String::from_str(name), tables: Vec::new() };
        proof {
            assert(c.model().tables =~= Seq::<TableStateModel>::empty());
        }
        Ok(c)
    }
}

/// Whether this descriptor is well-formed: executable form of
/// [`TableModel::wf`].
#[verifier::loop_isolation(false)]
pub fn check_descriptor(d: &TableDescriptor) -> (b: bool)
    ensures
        b == d.model().wf(),
{
    let ghost m = d.model();
    if d.name.as_str().unicode_len() == 0 {
        return false;
    }
    if d.columns.len() == 0 {
        return false;
    }
    let mut auto_seen = false;
    let ghost mut auto_at: int = 0;
    let mut i: usize = 0;
    while i < d.columns.len()
        invariant
            i <= d.columns@.len(),
            m.columns.len() == d.columns@.len(),
            m == d.model(),
            auto_seen ==> 0 <= auto_at < i && m.columns[auto_at].primary_key_auto,
            forall|j: int|
                0 <= j < i && (!auto_seen || j != auto_at) ==> !m.columns[
                    j
                ].primary_key_auto,
        decreases d.columns@.len() - i,
    {
        if d.columns[i].primary_key_auto {
            if auto_seen {
                proof {
                    assert(m.columns[i as int] == d.columns@[i as int].model());
                }
                return false;
            }
            auto_seen = true;
            proof {
                auto_at = i as int;
            }
        }
        i += 1;
    }
    let mut a: usize = 0;
    while a < d.columns.len()
        invariant
            a <= d.columns@.len(),
            m.columns.len() == d.columns@.len(),
            m == d.model(),
            forall|x: int, y: int|
                0 <= x < y < m.columns.len() && x < a ==> m.columns[x].name != m.columns[y].name,
        decreases d.columns@.len() - a,
    {
        let mut b: usize = a + 1;
        while b < d.columns.len()
            invariant
                a < b <= d.columns@.len() || (a + 1 > d.columns@.len() && b == a + 1),
                m.columns.len() == d.columns@.len(),
                m == d.model(),
                forall|y: int| a < y < b ==> m.columns[a as int].name != m.columns[y].name,
            decreases d.columns@.len() - b,
        {
            if d.columns[a].name == d.columns[b].name {
                proof {
                    assert(m.columns[a as int] == d.columns@[a as int].model());
                    assert(m.columns[b as int] == d.columns@[b as int].model());
                }
                return false;
            }
            b += 1;
        }
        a += 1;
    }
    true
}

/// The models of a sequence of descriptors.
pub open spec fn desc_models(s: Seq<TableDescriptor>) -> Seq<TableModel> {
    s.map_values(|d: TableDescriptor| d.model())
}

/// Fresh, empty tables for these descriptors, in order.
pub open spec fn empty_tables(ds: Seq<TableModel>) -> Seq<TableStateModel> {
    Seq::new(ds.len(), |i: int| TableStateModel { descriptor: ds[i], rows: Seq::empty() })
}

/// Creates one table per descriptor, empty, in the order given: the
/// bootstrap step of the adapter contract.
///
/// Succeeds exactly when every descriptor is well-formed and the table
/// names — among the descriptors and against the tables already present —
/// are distinct; on failure the connection is unchanged.
#[verifier::loop_isolation(false)]
pub fn init(conn: &mut Connection, descriptors: Vec<TableDescriptor>) -> (r: Result<
    (),
    SchemaError,
>)
    requires
        old(conn).model().wf(),
    ensures
        final(conn).model().wf(),
        (r is Ok) == init_ok(old(conn).model(), desc_models(descriptors@)),
        r is Ok ==> {
            &&& final(conn).model().name == old(conn).model().name
            &&& final(conn).model().tables == old(conn).model().tables + empty_tables(
                desc_models(descriptors@),
            )
        },
        r is Err ==> final(conn).model() == old(conn).model(),
        r is Err ==> (r matches Err(SchemaError::BadDescriptor(n)) ==> exists|i: int|
            0 <= i < descriptors@.len() && (#[trigger] desc_models(descriptors@)[i]).name == n@
                && !desc_models(descriptors@)[i].wf()),
        r is Err ==> (r matches Err(SchemaError::DuplicateTable(n)) ==> exists|i: int|
            0 <= i < descriptors@.len() && (#[trigger] desc_models(descriptors@)[i]).name == n@),
{
    let ghost m0 = conn.model();
    let ghost ds = desc_models(descriptors@);
    let mut i: usize = 0;
    while i < descriptors.len()
        invariant
            i <= descriptors@.len(),
            old(conn) == conn,
            forall|j: int| 0 <= j < i ==> (#[trigger] ds[j]).wf(),
            forall|j: int| 0 <= j < i ==> !m0.has_table(#[trigger] ds[j].name),
            forall|x: int, y: int| 0 <= x < y < i ==> ds[x].name != ds[y].name,
        decreases descriptors@.len() - i,
    {
        proof {
            assert(ds[i as int] == descriptors@[i as int].model());
        }
        if !check_descriptor(&descriptors[i]) {
            return Err(SchemaError::BadDescriptor(descriptors[i].name.clone()));
        }
        if conn.find_table(&descriptors[i].name).is_some() {
            return Err(SchemaError::DuplicateTable(descriptors[i].name.clone()));
        }
        let mut j: usize = 0;
        while j < i
            invariant
                j <= i,
                forall|x: int| 0 <= x < j ==> ds[x].name != ds[i as int].name,
            decreases i - j,
        {
            if descriptors[j].name == descriptors[i].name {
                proof {
                    assert(ds[j as int] == descriptors@[j as int].model());
                }
                return Err(SchemaError::DuplicateTable(descriptors[i].name.clone()));
            }
            j += 1;
        }
        i += 1;
    }
    let mut k: usize = 0;
    while k < descriptors.len()
        invariant
            k <= descriptors@.len(),
            conn.model().name == m0.name,
            conn.model().tables == m0.tables + empty_tables(ds.subrange(0, k as int)),
        decreases descriptors@.len() - k,
    {
        let ghost before = conn.model().tables;
        let t = TableState { descriptor: descriptor_copy(&descriptors[k]), rows: Vec::new() };
        proof {
            assert(t.model().descriptor == ds[k as int]);
            assert(t.model().rows =~= Seq::<Seq<crate::value::ValueModel>>::empty());
            assert(t.model() == empty_tables(ds)[k as int]);
        }
        conn.tables.push(t);
        proof {
            let after_goal = m0.tables + empty_tables(ds.subrange(0, k as int + 1));
            assert forall|x: int| 0 <= x < conn.model().tables.len() implies conn.model().tables[x]
                == after_goal[x] by {
                if x < before.len() {
                    assert(conn.model().tables[x] == before[x]);
                } else {
                    assert(conn.model().tables[x] == t.model());
                }
            }
            assert(conn.model().tables =~= after_goal);
        }
        k += 1;
    }
    proof {
        assert(conn.model().tables =~= m0.tables + empty_tables(ds));
        lemma_init_wf(m0, ds, conn.model());
    }
    Ok(())
}

/// When `init` succeeds: every descriptor well-formed, names distinct and
/// fresh.
pub open spec fn init_ok(m: ConnectionModel, ds: Seq<TableModel>) -> bool {
    &&& forall|j: int| 0 <= j < ds.len() ==> (#[trigger] ds[j]).wf()
    &&& forall|j: int| 0 <= j < ds.len() ==> !m.has_table(#[trigger] ds[j].name)
    &&& forall|x: int, y: int| 0 <= x < y < ds.len() ==> ds[x].name != ds[y].name
}

/// Appending fresh, well-formed, distinctly named empty tables keeps a
/// connection well-formed.
proof fn lemma_init_wf(m: ConnectionModel, ds: Seq<TableModel>, m2: ConnectionModel)
    requires
        m.wf(),
        init_ok(m, ds),
        m2.tables == m.tables + empty_tables(ds),
    ensures
        m2.wf(),
{
    let news = empty_tables(ds);
    assert forall|i: int| 0 <= i < m2.tables.len() implies #[trigger] m2.tables[i].wf() by {
        if i < m.tables.len() {
            assert(m2.tables[i] == m.tables[i]);
        } else {
            assert(m2.tables[i] == news[i - m.tables.len()]);
            assert(news[i - m.tables.len()].descriptor == ds[i - m.tables.len()]);
        }
    }
    assert forall|i: int, j: int|
        0 <= i < j < m2.tables.len() implies m2.tables[i].descriptor.name
        != m2.tables[j].descriptor.name by {
        if j < m.tables.len() {
            assert(m2.tables[i] == m.tables[i] && m2.tables[j] == m.tables[j]);
        } else if i < m.tables.len() {
            assert(m2.tables[j] == news[j - m.tables.len()]);
            if m.tables[i].descriptor.name == ds[j - m.tables.len()].name {
                assert(m.has_table(ds[j - m.tables.len()].name));
            }
        } else {
            assert(m2.tables[i] == news[i - m.tables.len()]);
            assert(m2.tables[j] == news[j - m.tables.len()]);
        }
    }
}

} // verus!
