//! Backend-agnostic value model: every cell a backend hands back, and every
//! field bound into a statement, is one of the [`Value`] variants.

use vstd::prelude::*;

verus! {

/// A scalar database cell.
///
/// A real number is carried as the bit pattern of its IEEE-754 double
/// representation; the embedding layer converts to and from the native
/// floating-point type at the boundary, and the core never computes with it.
#[derive(Debug)]
pub enum Value {
    Null,
    Integer(i64),
    Real(u64),
    Text(String),
    Blob(Vec<u8>),
}

/// The mathematical model of a [`Value`]: strings and blobs become sequences,
/// so that two cells are equal exactly when their contents are.
pub enum ValueModel {
    MNull,
    MInteger(int),
    MReal(u64),
    MText(Seq<char>),
    MBlob(Seq<u8>),
}

impl Value {
    /// The model of this cell.
    pub open spec fn model(self) -> ValueModel {
        match self {
            Value::Null => ValueModel::MNull,
            Value::Integer(i) => ValueModel::MInteger(i as int),
            Value::Real(bits) => ValueModel::MReal(bits),
            Value::Text(s) => ValueModel::MText(s@),
            Value::Blob(b) => ValueModel::MBlob(b@),
        }
    }
}

/// The model of a stored row: the models of its cells, in column order.
pub open spec fn row_model(r: Seq<Value>) -> Seq<ValueModel> {
    r.map_values(|v: Value| v.model())
}

/// Content equality of two byte vectors.
pub fn bytes_eq(a: &Vec<u8>, b: &Vec<u8>) -> (r: bool)
    ensures
        r == (a@ == b@),
{
    if a.len() != b.len() {
        return false;
    }
    let mut i: usize = 0;
    while i < a.len()
        invariant
            a@.len() == b@.len(),
            i <= a@.len(),
            forall|j: int| 0 <= j < i ==> a@[j] == b@[j],
        decreases a@.len() - i,
    {
        if a[i] != b[i] {
            return false;
        }
        i += 1;
    }
    proof {
        assert(a@ =~= b@);
    }
    true
}

/// A copy of a byte vector with the same contents.
pub fn bytes_copy(a: &Vec<u8>) -> (r: Vec<u8>)
    ensures
        r@ == a@,
{
    let mut out: Vec<u8> = Vec::new();
    let mut i: usize = 0;
    while i < a.len()
        invariant
            i <= a@.len(),
            out@.len() == i,
            forall|j: int| 0 <= j < i ==> out@[j] == a@[j],
        decreases a@.len() - i,
    {
        out.push(a[i]);
        i += 1;
    }
    proof {
        assert(out@ =~= a@);
    }
    out
}

/// A copy of a cell with the same model.
pub fn value_copy(v: &Value) -> (r: Value)
    ensures
        r.model() == v.model(),
{
    match v {
        Value::Null => Value::Null,
        Value::Integer(i) => Value::Integer(*i),
        Value::Real(b) => Value::Real(*b),
        Value::Text(s) => Value::Text(s.clone()),
        Value::Blob(b) => Value::Blob(bytes_copy(b)),
    }
}

/// Content equality of two cells: their models are the same.
pub fn value_eq(a: &Value, b: &Value) -> (r: bool)
    ensures
        r == (a.model() == b.model()),
{
    match (a, b) {
        (Value::Null, Value::Null) => true,
        (Value::Integer(x), Value::Integer(y)) => *x == *y,
        (Value::Real(x), Value::Real(y)) => *x == *y,
        (Value::Text(x), Value::Text(y)) => *x == *y,
        (Value::Blob(x), Value::Blob(y)) => bytes_eq(x, y),
        _ => false,
    }
}

} // verus!
