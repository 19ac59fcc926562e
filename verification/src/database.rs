//! Tables of integer claims: rows kept in a generational arena, and for each
//! column an index from a value to the rows that hold it.

use vstd::prelude::*;
use vstd::multiset::Multiset;
use std::collections::BTreeMap;

verus! {

/// The arena of `generational_arena`, which stores the rows of a table.
#[verifier::external_type_specification]
#[verifier::external_body]
#[verifier::reject_recursive_types(T)]
pub struct ExArena<T>(generational_arena::Arena<T>);

/// The handle by which `generational_arena` finds an item again.
#[verifier::external_type_specification]
#[verifier::external_body]
pub struct ExArenaIndex(generational_arena::Index);

/// A reference to a row of a table.
#[derive(Debug)]
pub struct RowRef(pub generational_arena::Index);

/// The values of a row, one per column.
#[derive(Debug)]
pub struct RowVal(pub Vec<i64>);

/// The rows an arena holds, each by its values.
pub uninterp spec fn arena_rows(a: generational_arena::Arena<RowVal>) -> Multiset<Seq<i64>>;

/// Makes an arena with `generational_arena::Arena::new`, which constructs an empty
/// arena.
#[verifier::external_body]
fn new_row_arena() -> (a: generational_arena::Arena<RowVal>)
    ensures
        arena_rows(a) == Multiset::<Seq<i64>>::empty(),
{
    generational_arena::Arena::new()
}

/// The type of a column.
#[derive(Clone, Copy, Debug, PartialEq, Eq, Structural)]
pub enum Ty {
    Int,
}

/// A column of integers: for each value, the rows that hold it.
#[derive(Debug)]
pub struct ColumnInt {
    map: BTreeMap<i64, Vec<RowRef>>,
}

impl ColumnInt {
    /// The rows by value.
    pub closed spec fn map_view(&self) -> Map<i64, Vec<RowRef>> {
        self.map@
    }

    /// An empty column of the given type.
    pub fn from(ty: Ty) -> (r: ColumnInt)
        ensures
            r.map_view() == Map::<i64, Vec<RowRef>>::empty(),
    {
        ColumnInt { map: BTreeMap::new() }
    }
}

/// A table, such as "<Int> claims <Int> is <Int>".
#[derive(Debug)]
pub struct DBTable {
    name: String,
    rows: generational_arena::Arena<RowVal>,
    columns: Vec<ColumnInt>,
}

impl DBTable {
    pub closed spec fn name_view(&self) -> Seq<char> {
        self.name@
    }

    pub closed spec fn rows_view(&self) -> Multiset<Seq<i64>> {
        arena_rows(self.rows)
    }

    pub closed spec fn columns_view(&self) -> Seq<Map<i64, Vec<RowRef>>> {
        self.columns@.map_values(|c: ColumnInt| c.map_view())
    }

    /// An empty table named `name` with one empty column per type.
    pub fn new(name: String, columns: Vec<Ty>) -> (r: DBTable)
        ensures
            r.name_view() == name@,
            r.rows_view() == Multiset::<Seq<i64>>::empty(),
            r.columns_view().len() == columns@.len(),
            forall|i: int| 0 <= i < columns@.len() ==> #[trigger] r.columns_view()[i]
                == Map::<i64, Vec<RowRef>>::empty(),
    {
        let mut cols: Vec<ColumnInt> = Vec::new();
        let mut i: usize = 0;
        while i < columns.len()
            invariant
                i <= columns.len(),
                cols@.len() == i,
                forall|j: int| 0 <= j < i ==> #[trigger] cols@[j].map_view() == Map::<
                    i64,
                    Vec<RowRef>,
                >::empty(),
            decreases columns.len() - i,
        {
            cols.push(ColumnInt::from(columns[i]));
            i = i + 1;
        }
        DBTable { name, columns: cols, rows: new_row_arena() }
    }

    /// The name of the table.
    pub fn name(&self) -> (r: &String)
        ensures
            r@ == self.name_view(),
    {
        &self.name
    }

    /// The number of rows, by `generational_arena::Arena::len`.
    pub fn row_count(&self) -> (r: usize)
        ensures
            r == self.rows_view().len(),
    {
        arena_len(&self.rows)
    }

    /// The number of columns.
    pub fn column_count(&self) -> (r: usize)
        ensures
            r == self.columns_view().len(),
    {
        self.columns.len()
    }
}

/// How many rows an arena holds, by `generational_arena::Arena::len` (the number
/// of elements in the arena).
#[verifier::external_body]
fn arena_len(a: &generational_arena::Arena<RowVal>) -> (r: usize)
    ensures
        r == arena_rows(*a).len(),
{
    a.len()
}

} // verus!
