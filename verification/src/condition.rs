//! The condition engine: a typed predicate tree, its evaluation semantics
//! over rows, and a renderer that lowers it to a backend's
//! parameter-placeholder dialect while keeping every literal value out of
//! the SQL text.

use vstd::prelude::*;

verus! {

use vstd::string::StringExecFns;
use crate::error::ValidationError;
use crate::schema::{TableDescriptor, TableModel, lemma_col_index_unique};
use crate::text::{dec_digits, strs, u64_to_string};
use crate::value::{ValueModel, value_eq};

/// An operand compared against a column: a literal value, or the name of
/// another column for column-to-column comparisons.
#[derive(Debug)]
pub enum Value {
    Literal(String),
    Column(String),
}

/// A predicate expression tree. Leaves compare a named column to an
/// operand; internal nodes combine sub-conditions with AND / OR / NOT.
///
/// Column names are validated against the target descriptor at render and
/// evaluation time, not earlier.
#[derive(Debug)]
pub enum Condition {
    Eq(String, Value),
    And(Box<Condition>, Box<Condition>),
    Or(Box<Condition>, Box<Condition>),
    Not(Box<Condition>),
}

/// The parameter-placeholder dialect of the destination backend.
#[derive(Clone, Copy, Debug, PartialEq, Eq, Structural)]
pub enum ParamStyle {
    /// Anonymous positional placeholders: `?`.
    Question,
    /// One-based numbered placeholders: `:1`, `:2`, ...
    Numbered,
}

/// The placeholder text for the literal at zero-based position `k`.
pub open spec fn placeholder(style: ParamStyle, k: nat) -> Seq<char> {
    match style {
        ParamStyle::Question => seq!['?'],
        ParamStyle::Numbered => seq![':'] + dec_digits(k + 1),
    }
}

/// Whether a cell equals a textual literal: it is a text cell with exactly
/// those characters.
pub open spec fn cell_is_text(v: ValueModel, s: Seq<char>) -> bool {
    match v {
        ValueModel::MText(t) => t == s,
        _ => false,
    }
}

impl Condition {
    /// Every column name the tree references, in traversal order.
    pub open spec fn cols(self) -> Seq<Seq<char>>
        decreases self,
    {
        match self {
            Condition::Eq(c, Value::Literal(_)) => seq![c@],
            Condition::Eq(c, Value::Column(c2)) => seq![c@, c2@],
            Condition::And(a, b) => a.cols() + b.cols(),
            Condition::Or(a, b) => a.cols() + b.cols(),
            Condition::Not(a) => a.cols(),
        }
    }

    /// Every referenced column exists in the descriptor.
    pub open spec fn cols_ok(self, m: TableModel) -> bool {
        forall|i: int| 0 <= i < self.cols().len() ==> m.has_column(#[trigger] self.cols()[i])
    }

    /// The first referenced column, in traversal order, that the descriptor
    /// lacks (meaningful when `!self.cols_ok(m)`).
    pub open spec fn first_missing(self, m: TableModel) -> Seq<char>
        decreases self,
    {
        match self {
            Condition::Eq(c, Value::Literal(_)) => c@,
            Condition::Eq(c, Value::Column(c2)) => if !m.has_column(c@) {
                c@
            } else {
                c2@
            },
            Condition::And(a, b) => if !a.cols_ok(m) {
                a.first_missing(m)
            } else {
                b.first_missing(m)
            },
            Condition::Or(a, b) => if !a.cols_ok(m) {
                a.first_missing(m)
            } else {
                b.first_missing(m)
            },
            Condition::Not(a) => a.first_missing(m),
        }
    }

    /// The literal values bound by this tree, in traversal order. This is
    /// the stable order of the parameter list that rendering produces.
    pub open spec fn literals(self) -> Seq<Seq<char>>
        decreases self,
    {
        match self {
            Condition::Eq(_, Value::Literal(s)) => seq![s@],
            Condition::Eq(_, Value::Column(_)) => seq![],
            Condition::And(a, b) => a.literals() + b.literals(),
            Condition::Or(a, b) => a.literals() + b.literals(),
            Condition::Not(a) => a.literals(),
        }
    }

    /// The SQL fragment this tree renders to, given that `k` literals were
    /// already bound to the left of it. Literal values never appear here:
    /// the text depends only on the tree's shape, its column names, and the
    /// placeholder style.
    pub open spec fn spec_sql(self, style: ParamStyle, k: nat) -> Seq<char>
        decreases self,
    {
        match self {
            Condition::Eq(c, Value::Literal(_)) => c@ + " = "@ + placeholder(style, k),
            Condition::Eq(c, Value::Column(c2)) => c@ + " = "@ + c2@,
            Condition::And(a, b) => "("@ + a.spec_sql(style, k) + " AND "@ + b.spec_sql(
                style,
                k + a.literals().len(),
            ) + ")"@,
            Condition::Or(a, b) => "("@ + a.spec_sql(style, k) + " OR "@ + b.spec_sql(
                style,
                k + a.literals().len(),
            ) + ")"@,
            Condition::Not(a) => "NOT ("@ + a.spec_sql(style, k) + ")"@,
        }
    }

    /// Truth of this predicate on one stored row of the descriptor's table.
    /// Sub-trees combine exactly as the tree's structure says, independent
    /// of any backend operator precedence.
    pub open spec fn eval(self, m: TableModel, row: Seq<ValueModel>) -> bool
        decreases self,
    {
        match self {
            Condition::Eq(c, Value::Literal(s)) => cell_is_text(row[m.col_index(c@)], s@),
            Condition::Eq(c, Value::Column(c2)) => row[m.col_index(c@)] == row[m.col_index(c2@)],
            Condition::And(a, b) => a.eval(m, row) && b.eval(m, row),
            Condition::Or(a, b) => a.eval(m, row) || b.eval(m, row),
            Condition::Not(a) => !a.eval(m, row),
        }
    }
}

/// Whenever a tree references a column its descriptor lacks, the first such
/// column is itself a referenced column, and absent.
pub proof fn lemma_first_missing_absent(c: Condition, m: TableModel)
    requires
        !c.cols_ok(m),
    ensures
        !m.has_column(c.first_missing(m)),
        c.cols().contains(c.first_missing(m)),
    decreases c,
{
    match c {
        Condition::Eq(col, Value::Literal(_)) => {
            assert(c.cols()[0] == col@);
            assert(!m.has_column(col@));
        },
        Condition::Eq(col, Value::Column(c2)) => {
            assert(c.cols()[0] == col@);
            assert(c.cols()[1] == c2@);
            if m.has_column(col@) {
                assert(!m.has_column(c2@));
            }
        },
        Condition::And(a, b) => {
            lemma_cols_pair(c, *a, *b, m);
            if !a.cols_ok(m) {
                lemma_first_missing_absent(*a, m);
                let n = a.first_missing(m);
                let i = choose|i: int| 0 <= i < a.cols().len() && a.cols()[i] == n;
                assert(c.cols()[i] == n);
            } else {
                lemma_first_missing_absent(*b, m);
                let n = b.first_missing(m);
                let i = choose|i: int| 0 <= i < b.cols().len() && b.cols()[i] == n;
                assert(c.cols()[a.cols().len() + i] == n);
            }
        },
        Condition::Or(a, b) => {
            lemma_cols_pair(c, *a, *b, m);
            if !a.cols_ok(m) {
                lemma_first_missing_absent(*a, m);
                let n = a.first_missing(m);
                let i = choose|i: int| 0 <= i < a.cols().len() && a.cols()[i] == n;
                assert(c.cols()[i] == n);
            } else {
                lemma_first_missing_absent(*b, m);
                let n = b.first_missing(m);
                let i = choose|i: int| 0 <= i < b.cols().len() && b.cols()[i] == n;
                assert(c.cols()[a.cols().len() + i] == n);
            }
        },
        Condition::Not(a) => {
            assert(!a.cols_ok(m)) by {
                assert(c.cols() == a.cols());
            }
            lemma_first_missing_absent(*a, m);
        },
    }
}

/// The SQL text a condition renders to carries no literal value: two trees
/// of the same shape — same structure and column names, literal values free
/// to differ — render to the very same SQL, in every placeholder style.
/// Literals travel only through the bound-parameter list.
pub open spec fn same_shape(a: Condition, b: Condition) -> bool
    decreases a,
{
    match (a, b) {
        (Condition::Eq(c1, Value::Literal(_)), Condition::Eq(c2, Value::Literal(_))) => c1@ == c2@,
        (Condition::Eq(c1, Value::Column(d1)), Condition::Eq(c2, Value::Column(d2))) => c1@ == c2@
            && d1@ == d2@,
        (Condition::And(a1, b1), Condition::And(a2, b2)) => same_shape(*a1, *a2) && same_shape(
            *b1,
            *b2,
        ),
        (Condition::Or(a1, b1), Condition::Or(a2, b2)) => same_shape(*a1, *a2) && same_shape(
            *b1,
            *b2,
        ),
        (Condition::Not(a1), Condition::Not(a2)) => same_shape(*a1, *a2),
        _ => false,
    }
}

/// No literal value is embedded in rendered SQL: conditions of the same
/// shape render to identical SQL text, whatever their literal values, and
/// bind the same number of parameters in the same positions.
pub proof fn lemma_sql_free_of_literals(a: Condition, b: Condition, style: ParamStyle, k: nat)
    requires
        same_shape(a, b),
    ensures
        a.spec_sql(style, k) == b.spec_sql(style, k),
        a.literals().len() == b.literals().len(),
        a.cols() == b.cols(),
    decreases a,
{
    match (a, b) {
        (Condition::Eq(c1, Value::Literal(_)), Condition::Eq(c2, Value::Literal(_))) => {
            assert(a.cols() =~= b.cols());
        },
        (Condition::Eq(c1, Value::Column(d1)), Condition::Eq(c2, Value::Column(d2))) => {
            assert(a.cols() =~= b.cols());
        },
        (Condition::And(a1, b1), Condition::And(a2, b2)) => {
            lemma_sql_free_of_literals(*a1, *a2, style, k);
            lemma_sql_free_of_literals(*b1, *b2, style, k + a1.literals().len());
            assert(a.cols() =~= b.cols());
        },
        (Condition::Or(a1, b1), Condition::Or(a2, b2)) => {
            lemma_sql_free_of_literals(*a1, *a2, style, k);
            lemma_sql_free_of_literals(*b1, *b2, style, k + a1.literals().len());
            assert(a.cols() =~= b.cols());
        },
        (Condition::Not(a1), Condition::Not(a2)) => {
            lemma_sql_free_of_literals(*a1, *a2, style, k);
        },
        _ => {},
    }
}

/// Appends the placeholder for the literal at position `k`.
pub fn push_placeholder(style: ParamStyle, k: u64, sql: &mut String)
    requires
        k < u64::MAX,
    ensures
        final(sql)@ == old(sql)@ + placeholder(style, k as nat),
{
    match style {
        ParamStyle::Question => {
            sql.append("?");
            proof {
                reveal_strlit("?");
                assert(final(sql)@ =~= old(sql)@ + placeholder(style, k as nat));
            }
        },
        ParamStyle::Numbered => {
            sql.append(":");
            let n = u64_to_string(k + 1);
            sql.append(n.as_str());
            proof {
                reveal_strlit(":");
                assert(final(sql)@ =~= old(sql)@ + placeholder(style, k as nat));
            }
        },
    }
}

/// Renders `c` into `sql`, pushing each bound literal onto `params`.
#[verifier::rlimit(60)]
fn render_into(
    c: &Condition,
    d: &TableDescriptor,
    style: ParamStyle,
    base: usize,
    sql: &mut String,
    params: &mut Vec<String>,
) -> (r: Result<(), ValidationError>)
    requires
        d.model().wf(),
        base > 0 ==> base + old(params)@.len() + c.literals().len() <= u64::MAX,
    ensures
        (r is Ok) == c.cols_ok(d.model()),
        r is Ok ==> final(sql)@ == old(sql)@ + c.spec_sql(
            style,
            (base + old(params)@.len()) as nat,
        ),
        r is Ok ==> strs(final(params)@) == strs(old(params)@) + c.literals(),
        r is Ok ==> final(params)@.len() == old(params)@.len() + c.literals().len(),
        r is Err ==> (r matches Err(ValidationError::UnknownColumn(n)) && n@ == c.first_missing(
            d.model(),
        )),
    decreases *c,
{
    let ghost m = d.model();
    match c {
        Condition::Eq(col, v) => {
            if d.find_column(col).is_none() {
                proof {
                    assert(c.cols()[0] == col@);
                }
                return Err(ValidationError::UnknownColumn(col.clone()));
            }
            sql.append(col.as_str());
            sql.append(" = ");
            match v {
                Value::Literal(s) => {
                    params.push(s.clone());
                    push_placeholder(style, (base as u64) + ((params.len() - 1) as u64), sql);
                    proof {
                        assert(c.cols() =~= seq![col@]);
                        assert(c.cols()[0] == col@);
                        assert(c.cols_ok(m));
                        assert(final(sql)@ =~= old(sql)@ + c.spec_sql(
                            style,
                            (base + old(params)@.len()) as nat,
                        ));
                        assert(strs(final(params)@) =~= strs(old(params)@) + c.literals());
                    }
                    Ok(())
                },
                Value::Column(c2) => {
                    if d.find_column(c2).is_none() {
                        proof {
                            assert(c.cols()[1] == c2@);
                        }
                        return Err(ValidationError::UnknownColumn(c2.clone()));
                    }
                    sql.append(c2.as_str());
                    proof {
                        assert forall|i: int| 0 <= i < c.cols().len() implies m.has_column(
                            #[trigger] c.cols()[i],
                        ) by {
                            assert(c.cols() =~= seq![col@, c2@]);
                        }
                        assert(final(sql)@ =~= old(sql)@ + c.spec_sql(
                            style,
                            (base + old(params)@.len()) as nat,
                        ));
                        assert(strs(final(params)@) =~= strs(old(params)@) + c.literals());
                    }
                    Ok(())
                },
            }
        },
        Condition::And(a, b) => {
            sql.append("(");
            let ghost sql1 = sql@;
            let ghost params1 = params@;
            match render_into(&**a, d, style, base, sql, params) {
                Ok(()) => {},
                Err(e) => {
                    proof {
                        lemma_cols_pair(*c, **a, **b, d.model());
                    }
                    return Err(e);
                },
            }
            sql.append(" AND ");
            let ghost sql2 = sql@;
            let ghost params2 = params@;
            match render_into(&**b, d, style, base, sql, params) {
                Ok(()) => {},
                Err(e) => {
                    proof {
                        lemma_cols_pair(*c, **a, **b, d.model());
                    }
                    return Err(e);
                },
            }
            sql.append(")");
            proof {
                reveal_strlit("(");
                reveal_strlit(" AND ");
                reveal_strlit(")");
                lemma_cols_pair(*c, **a, **b, d.model());
                assert(final(sql)@ =~= old(sql)@ + c.spec_sql(
                    style,
                    (base + old(params)@.len()) as nat,
                ));
                assert(strs(final(params)@) =~= strs(old(params)@) + c.literals());
            }
            Ok(())
        },
        Condition::Or(a, b) => {
            sql.append("(");
            match render_into(&**a, d, style, base, sql, params) {
                Ok(()) => {},
                Err(e) => {
                    proof {
                        lemma_cols_pair(*c, **a, **b, d.model());
                    }
                    return Err(e);
                },
            }
            sql.append(" OR ");
            match render_into(&**b, d, style, base, sql, params) {
                Ok(()) => {},
                Err(e) => {
                    proof {
                        lemma_cols_pair(*c, **a, **b, d.model());
                    }
                    return Err(e);
                },
            }
            sql.append(")");
            proof {
                reveal_strlit("(");
                reveal_strlit(" OR ");
                reveal_strlit(")");
                lemma_cols_pair(*c, **a, **b, d.model());
                assert(final(sql)@ =~= old(sql)@ + c.spec_sql(
                    style,
                    (base + old(params)@.len()) as nat,
                ));
                assert(strs(final(params)@) =~= strs(old(params)@) + c.literals());
            }
            Ok(())
        },
        Condition::Not(a) => {
            sql.append("NOT (");
            match render_into(&**a, d, style, base, sql, params) {
                Ok(()) => {},
                Err(e) => {
                    proof {
                        assert(c.cols() == a.cols());
                    }
                    return Err(e);
                },
            }
            sql.append(")");
            proof {
                reveal_strlit("NOT (");
                reveal_strlit(")");
                assert(c.cols() == a.cols());
                assert(final(sql)@ =~= old(sql)@ + c.spec_sql(
                    style,
                    (base + old(params)@.len()) as nat,
                ));
                assert(strs(final(params)@) =~= strs(old(params)@) + c.literals());
            }
            Ok(())
        },
    }
}

/// For an AND / OR pair, validity of the pair is validity of both parts.
proof fn lemma_cols_pair(c: Condition, a: Condition, b: Condition, m: TableModel)
    requires
        c.cols() == a.cols() + b.cols(),
    ensures
        c.cols_ok(m) == (a.cols_ok(m) && b.cols_ok(m)),
{
    if a.cols_ok(m) && b.cols_ok(m) {
        assert forall|i: int| 0 <= i < c.cols().len() implies m.has_column(
            #[trigger] c.cols()[i],
        ) by {
            if i < a.cols().len() {
                assert(c.cols()[i] == a.cols()[i]);
            } else {
                assert(c.cols()[i] == b.cols()[i - a.cols().len()]);
            }
        }
    }
    if c.cols_ok(m) {
        assert forall|i: int| 0 <= i < a.cols().len() implies m.has_column(
            #[trigger] a.cols()[i],
        ) by {
            assert(c.cols()[i] == a.cols()[i]);
        }
        assert forall|i: int| 0 <= i < b.cols().len() implies m.has_column(
            #[trigger] b.cols()[i],
        ) by {
            assert(c.cols()[a.cols().len() + i] == b.cols()[i]);
        }
    }
}

/// Lowers a condition to a parameterized SQL fragment for the given
/// placeholder dialect, together with the bound literal list in stable
/// (traversal) order.
///
/// Succeeds exactly when every referenced column exists in the descriptor;
/// otherwise fails with `UnknownColumn` naming the first absent column in
/// traversal order. On success the SQL text is a function of the tree's
/// shape, its column names and the dialect alone — never of a literal value
/// — and the literal list holds exactly the tree's literals in order.
pub fn render(c: &Condition, d: &TableDescriptor, style: ParamStyle) -> (r: Result<
    (String, Vec<String>),
    ValidationError,
>)
    requires
        d.model().wf(),
    ensures
        (r is Ok) == c.cols_ok(d.model()),
        r matches Ok(p) ==> p.0@ == c.spec_sql(style, 0) && strs(p.1@) == c.literals(),
        r is Err ==> (r matches Err(ValidationError::UnknownColumn(n)) && n@ == c.first_missing(
            d.model(),
        ) && !d.model().has_column(n@)),
{
    let mut sql = String::new();
    let mut params: Vec<String> = Vec::new();
    match render_into(c, d, style, 0, &mut sql, &mut params) {
        Ok(()) => {
            proof {
                assert(sql@ =~= c.spec_sql(style, 0));
                assert(strs(params@) =~= c.literals());
            }
            Ok((sql, params))
        },
        Err(e) => {
            proof {
                lemma_first_missing_absent(*c, d.model());
            }
            Err(e)
        },
    }
}

/// Lowers a condition exactly as [`render`] does, but numbers the
/// placeholders from `base`: for statements whose earlier parameters — an
/// UPDATE's SET values — already occupy the first positions.
pub fn render_from(c: &Condition, d: &TableDescriptor, style: ParamStyle, base: usize) -> (r:
    Result<(String, Vec<String>), ValidationError>)
    requires
        d.model().wf(),
        base + c.literals().len() <= u64::MAX,
    ensures
        (r is Ok) == c.cols_ok(d.model()),
        r matches Ok(p) ==> p.0@ == c.spec_sql(style, base as nat) && strs(p.1@) == c.literals(),
        r is Err ==> (r matches Err(ValidationError::UnknownColumn(n)) && n@ == c.first_missing(
            d.model(),
        ) && !d.model().has_column(n@)),
{
    let mut sql = String::new();
    let mut params: Vec<String> = Vec::new();
    match render_into(c, d, style, base, &mut sql, &mut params) {
        Ok(()) => {
            proof {
                assert(sql@ =~= c.spec_sql(style, base as nat));
                assert(strs(params@) =~= c.literals());
            }
            Ok((sql, params))
        },
        Err(e) => {
            proof {
                lemma_first_missing_absent(*c, d.model());
            }
            Err(e)
        },
    }
}

/// Truth of a condition on one stored row, executable form: returns exactly
/// what the specification-level [`Condition::eval`] says.
pub fn eval_row(c: &Condition, d: &TableDescriptor, row: &Vec<crate::value::Value>) -> (r: bool)
    requires
        d.model().wf(),
        c.cols_ok(d.model()),
        row@.len() == d.model().columns.len(),
    ensures
        r == c.eval(d.model(), crate::value::row_model(row@)),
    decreases *c,
{
    let ghost m = d.model();
    let ghost rowm = crate::value::row_model(row@);
    match c {
        Condition::Eq(col, v) => {
            proof {
                assert(c.cols()[0] == col@);
            }
            let idx = match d.find_column(col) {
                Some(i) => i,
                None => {
                    proof {
                        assert(false);
                    }
                    0
                },
            };
            proof {
                lemma_col_index_unique(m, col@, idx as int);
                assert(rowm[idx as int] == row@[idx as int].model());
            }
            match v {
                Value::Literal(s) => {
                    match &row[idx] {
                        crate::value::Value::Text(t) => *t == *s,
                        _ => false,
                    }
                },
                Value::Column(c2) => {
                    proof {
                        assert(c.cols()[1] == c2@);
                    }
                    let idx2 = match d.find_column(c2) {
                        Some(i) => i,
                        None => {
                            proof {
                                assert(false);
                            }
                            0
                        },
                    };
                    proof {
                        lemma_col_index_unique(m, c2@, idx2 as int);
                        assert(rowm[idx2 as int] == row@[idx2 as int].model());
                    }
                    value_eq(&row[idx], &row[idx2])
                },
            }
        },
        Condition::And(a, b) => {
            proof {
                lemma_cols_pair(*c, **a, **b, m);
            }
            eval_row(&**a, d, row) && eval_row(&**b, d, row)
        },
        Condition::Or(a, b) => {
            proof {
                lemma_cols_pair(*c, **a, **b, m);
            }
            eval_row(&**a, d, row) || eval_row(&**b, d, row)
        },
        Condition::Not(a) => {
            proof {
                assert(c.cols() == a.cols());
            }
            !eval_row(&**a, d, row)
        },
    }
}

} // verus!
