//! Column element types, cells and the values they hold.

use vstd::prelude::*;

verus! {

/// The type of the elements of a column.
#[derive(Clone, Copy, Debug, PartialEq, Eq, Structural)]
pub enum DataType {
    Bool,
    Int64,
    Utf8,
}

/// One element of a column: a value of its type, or null.
#[derive(Clone, Debug, PartialEq)]
pub enum Cell {
    Null,
    Bool(bool),
    Int(i64),
    Str(String),
}

/// What a cell holds, with a string seen as its characters.
pub enum Value {
    Null,
    Bool(bool),
    Int(i64),
    Str(Seq<char>),
}

impl View for Cell {
    type V = Value;

    open spec fn view(&self) -> Value {
        match self {
            Cell::Null => Value::Null,
            Cell::Bool(b) => Value::Bool(*b),
            Cell::Int(i) => Value::Int(*i),
            Cell::Str(s) => Value::Str(s@),
        }
    }
}

/// The values held by a sequence of cells.
pub open spec fn cells_view(s: Seq<Cell>) -> Seq<Value> {
    s.map_values(|c: Cell| c@)
}

/// Whether a value may stand in a column of type `t` (null may stand in any).
pub open spec fn fits(v: Value, t: DataType) -> bool {
    match v {
        Value::Null => true,
        Value::Bool(_) => t == DataType::Bool,
        Value::Int(_) => t == DataType::Int64,
        Value::Str(_) => t == DataType::Utf8,
    }
}

pub proof fn lemma_cells_view_push(s: Seq<Cell>, c: Cell)
    ensures
        cells_view(s.push(c)) == cells_view(s).push(c@),
{
    assert(cells_view(s.push(c)) =~= cells_view(s).push(c@));
}

impl Cell {
    /// A copy of this cell holding the same value.
    pub fn duplicate(&self) -> (r: Cell)
        ensures
            r@ == self@,
    {
        match self {
            Cell::Null => Cell::Null,
            Cell::Bool(b) => Cell::Bool(*b),
            Cell::Int(i) => Cell::Int(*i),
            Cell::Str(s) => Cell::Str(s.clone()),
        }
    }

    /// Whether two cells hold the same value; null equals null only.
    pub fn same(&self, o: &Cell) -> (r: bool)
        ensures
            r == (self@ == o@),
    {
        match (self, o) {
            (Cell::Null, Cell::Null) => true,
            (Cell::Bool(a), Cell::Bool(b)) => *a == *b,
            (Cell::Int(a), Cell::Int(b)) => *a == *b,
            (Cell::Str(a), Cell::Str(b)) => *a == *b,
            _ => false,
        }
    }

    pub fn is_null(&self) -> (r: bool)
        ensures
            r == (self@ is Null),
    {
        match self {
            Cell::Null => true,
            _ => false,
        }
    }

    /// Whether this cell may stand in a column of type `t`.
    pub fn fits(&self, t: DataType) -> (r: bool)
        ensures
            r == fits(self@, t),
    {
        match self {
            Cell::Null => true,
            Cell::Bool(_) => t == DataType::Bool,
            Cell::Int(_) => t == DataType::Int64,
            Cell::Str(_) => t == DataType::Utf8,
        }
    }
}

/// A copy of a sequence of cells.
pub fn copy_cells(v: &Vec<Cell>) -> (r: Vec<Cell>)
    ensures
        cells_view(r@) == cells_view(v@),
{
    let mut r: Vec<Cell> = Vec::new();
    let mut i: usize = 0;
    while i < v.len()
        invariant
            i <= v.len(),
            cells_view(r@) == cells_view(v@.take(i as int)),
        decreases v.len() - i,
    {
        proof { lemma_cells_view_push(r@, v[i as int]); }
        r.push(v[i].duplicate());
        assert(v@.take(i + 1) == v@.take(i as int).push(v[i as int]));
        proof { lemma_cells_view_push(v@.take(i as int), v[i as int]); }
        i += 1;
    }
    assert(v@.take(i as int) == v@);
    r
}

} // verus!
