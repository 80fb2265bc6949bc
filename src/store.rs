use vstd::prelude::*;
use crate::json::{
    fields_view, find_field, get_field, items_view, keys_of, lemma_array_view, lemma_find_key,
    lemma_object_view, Fields, Json, JsonNumber, JsonValue, Num,
};
use crate::mapping::{distinct_in_order, strs_view};

verus! {

/// One value of a row to store.
#[derive(Debug, PartialEq, Eq)]
pub enum Cell {
    /// No value: a missing column, a null, a list or an object.
    Null,
    /// A number that fits a 64-bit signed integer.
    BigInt(i64),
    /// Any other number, to be stored as a double.
    Double(JsonNumber),
    Text(String),
    Bool(bool),
}

/// Why a value cannot be stored as rows.
#[derive(Debug, Clone, Copy, PartialEq, Eq, Structural)]
pub enum StoreError {
    /// An element of an array is not an object.
    ExpectedObject,
    /// The value is neither an array nor an object.
    ExpectedArrayOrObject,
}

/// The cell that stores the value `v` of a column (`None`: the column is
/// missing from the row).
pub open spec fn cell_is(c: Cell, v: Option<Json>) -> bool {
    match v {
        Some(Json::Number(Num::PosInt(n))) => if n <= i64::MAX {
            c == Cell::BigInt(n as i64)
        } else {
            c matches Cell::Double(x) && x.view() == Num::PosInt(n)
        },
        Some(Json::Number(Num::NegInt(n))) => c == Cell::BigInt(n),
        Some(Json::Number(Num::Float(t))) => c matches Cell::Double(x) && x.view() == Num::Float(t),
        Some(Json::Str(s)) => c matches Cell::Text(t) && t@ == s,
        Some(Json::Bool(b)) => c == Cell::Bool(b),
        _ => c is Null,
    }
}

/// The rows that a value stands for: an object is one row, an array of
/// objects is one row per element.
pub open spec fn row_objects(v: Json) -> Option<Seq<Fields>> {
    match v {
        Json::Object(f) => Some(seq![f]),
        Json::Array(items) => if forall|i: int| 0 <= i < items.len() ==> (#[trigger] items[i]) is Object {
            Some(items.map_values(|x: Json| x->Object_0))
        } else {
            None
        },
        _ => None,
    }
}

/// The keys of all rows, in order.
pub open spec fn all_keys(rows: Seq<Fields>) -> Seq<Seq<char>>
    decreases rows.len(),
{
    if rows.len() == 0 {
        Seq::empty()
    } else {
        all_keys(rows.drop_last()) + keys_of(rows.last())
    }
}

/// The columns of a table of rows: every key, at its first occurrence.
pub open spec fn columns_of(rows: Seq<Fields>) -> Seq<Seq<char>> {
    distinct_in_order(all_keys(rows))
}

/// The cells of `row` for the columns `cols`, in order.
pub open spec fn row_cells_are(cells: Seq<Cell>, row: Fields, cols: Seq<Seq<char>>) -> bool {
    &&& cells.len() == cols.len()
    &&& forall|j: int| 0 <= j < cols.len() ==> cell_is(#[trigger] cells[j], get_field(row, cols[j]))
}

fn cell_of(v: Option<&JsonValue>) -> (r: Cell)
    ensures
        cell_is(
            r,
            match v {
                Some(x) => Some(x.view()),
                None => None,
            },
        ),
{
    match v {
        Some(JsonValue::Number(JsonNumber::PosInt(n))) => {
            if *n <= i64::MAX as u64 {
                Cell::BigInt(*n as i64)
            } else {
                Cell::Double(JsonNumber::PosInt(*n))
            }
        },
        Some(JsonValue::Number(JsonNumber::NegInt(n))) => Cell::BigInt(*n),
        Some(JsonValue::Number(JsonNumber::Float(t))) => Cell::Double(JsonNumber::Float(t.clone())),
        Some(JsonValue::String(s)) => Cell::Text(s.clone()),
        Some(JsonValue::Bool(b)) => Cell::Bool(*b),
        _ => Cell::Null,
    }
}

/// Appends `k` to `cols` unless it is there already.
fn add_column(cols: &mut Vec<String>, k: &String)
    ensures
        strs_view(final(cols)@) == (if strs_view(old(cols)@).contains(k@) {
            strs_view(old(cols)@)
        } else {
            strs_view(old(cols)@).push(k@)
        }),
{
    let mut i: usize = 0;
    while i < cols.len()
        invariant
            i <= cols.len(),
            forall|j: int| 0 <= j < i ==> cols@[j]@ != k@,
        decreases cols.len() - i,
    {
        if cols[i] == *k {
            assert(strs_view(cols@)[i as int] == k@);
            return;
        }
        i = i + 1;
    }
    let ghost before = cols@;
    cols.push(k.clone());
    assert(strs_view(cols@) =~= strs_view(before).push(k@));
}

/// Adds the keys of one row to the columns.
fn add_row_columns(
    cols: &mut Vec<String>,
    row: &Vec<(String, JsonValue)>,
    Ghost(seen): Ghost<Seq<Seq<char>>>,
)
    requires
        strs_view(old(cols)@) == distinct_in_order(seen),
    ensures
        strs_view(final(cols)@) == distinct_in_order(seen + keys_of(fields_view(row@))),
{
    let ghost ks = keys_of(fields_view(row@));
    let mut i: usize = 0;
    assert(seen + ks.take(0) =~= seen);
    while i < row.len()
        invariant
            i <= row.len(),
            ks == keys_of(fields_view(row@)),
            strs_view(cols@) == distinct_in_order(seen + ks.take(i as int)),
        decreases row.len() - i,
    {
        assert((seen + ks.take(i + 1)).drop_last() =~= seen + ks.take(i as int));
        assert((seen + ks.take(i + 1)).last() == row@[i as int].0@);
        add_column(cols, &row[i].0);
        i = i + 1;
    }
    assert(ks.take(row.len() as int) =~= ks);
}

/// The cells of one row for the given columns.
fn row_cells(row: &Vec<(String, JsonValue)>, cols: &Vec<String>) -> (r: Vec<Cell>)
    ensures
        row_cells_are(r@, fields_view(row@), strs_view(cols@)),
{
    let ghost rv = fields_view(row@);
    let mut cells: Vec<Cell> = Vec::new();
    let mut j: usize = 0;
    while j < cols.len()
        invariant
            j <= cols.len(),
            rv == fields_view(row@),
            cells.len() == j,
            forall|k: int| 0 <= k < j ==> cell_is(#[trigger] cells@[k], get_field(rv, cols@[k]@)),
        decreases cols.len() - j,
    {
        proof {
            lemma_find_key(rv, cols@[j as int]@);
        }
        let v = match find_field(row, &cols[j]) {
            Some(i) => Some(&row[i].1),
            None => None,
        };
        cells.push(cell_of(v));
        j = j + 1;
    }
    cells
}

/// The columns and the rows of cells that store `object`: an object is one
/// row, an array of objects one row per element; with no column there is
/// no row.
pub fn table_rows(object: &JsonValue) -> (r: Result<(Vec<String>, Vec<Vec<Cell>>), StoreError>)
    ensures
        match row_objects(object.view()) {
            None => r == Err::<(Vec<String>, Vec<Vec<Cell>>), StoreError>(if object.view() is Array {
                StoreError::ExpectedObject
            } else {
                StoreError::ExpectedArrayOrObject
            }),
            Some(rows) => r matches Ok((cols, cells)) && strs_view(cols@) == columns_of(rows) && (
            if cols.len() == 0 {
                cells.len() == 0
            } else {
                cells.len() == rows.len() && forall|i: int|
                    0 <= i < rows.len() ==> row_cells_are(
                        #[trigger] cells@[i]@,
                        rows[i],
                        strs_view(cols@),
                    )
            }),
        },
{
    let mut cols: Vec<String> = Vec::new();
    let mut cells: Vec<Vec<Cell>> = Vec::new();
    match object {
        JsonValue::Object(fields) => {
            proof {
                lemma_object_view(*fields);
                let rows = seq![fields_view(fields@)];
                assert(rows.drop_last() =~= Seq::<Fields>::empty());
                assert(all_keys(rows.drop_last()) == Seq::<Seq<char>>::empty());
                assert(rows.last() == fields_view(fields@));
                assert(all_keys(rows) =~= Seq::<Seq<char>>::empty() + keys_of(fields_view(fields@)));
                assert(strs_view(cols@) =~= distinct_in_order(Seq::empty()));
            }
            add_row_columns(&mut cols, fields, Ghost(Seq::empty()));
            if cols.len() > 0 {
                cells.push(row_cells(fields, &cols));
            }
            Ok((cols, cells))
        },
        JsonValue::Array(items) => {
            let ghost iv = items_view(items@);
            proof {
                lemma_array_view(*items);
            }
            let mut i: usize = 0;
            while i < items.len()
                invariant
                    i <= items.len(),
                    iv == items_view(items@),
                    object.view() == Json::Array(iv),
                    forall|j: int| 0 <= j < i ==> (#[trigger] iv[j]) is Object,
                decreases items.len() - i,
            {
                assert(iv[i as int] == items@[i as int].view());
                match &items[i] {
                    JsonValue::Object(_) => {},
                    _ => {
                        return Err(StoreError::ExpectedObject);
                    },
                }
                i = i + 1;
            }
            let ghost rows = iv.map_values(|x: Json| x->Object_0);
            assert(strs_view(cols@) =~= distinct_in_order(all_keys(rows.take(0))));
            let mut i: usize = 0;
            while i < items.len()
                invariant
                    i <= items.len(),
                    iv == items_view(items@),
                    rows == iv.map_values(|x: Json| x->Object_0),
                    forall|j: int| 0 <= j < items.len() ==> (#[trigger] iv[j]) is Object,
                    strs_view(cols@) == distinct_in_order(all_keys(rows.take(i as int))),
                decreases items.len() - i,
            {
                assert(iv[i as int] == items@[i as int].view());
                assert(rows.take(i + 1).drop_last() =~= rows.take(i as int));
                match &items[i] {
                    JsonValue::Object(f) => {
                        proof {
                            lemma_object_view(*f);
                        }
                        add_row_columns(&mut cols, f, Ghost(all_keys(rows.take(i as int))));
                    },
                    _ => {},
                }
                i = i + 1;
            }
            assert(rows.take(items.len() as int) =~= rows);
            if cols.len() > 0 {
                let mut i: usize = 0;
                while i < items.len()
                    invariant
                        i <= items.len(),
                        iv == items_view(items@),
                        rows == iv.map_values(|x: Json| x->Object_0),
                        forall|j: int| 0 <= j < items.len() ==> (#[trigger] iv[j]) is Object,
                        cells.len() == i,
                        forall|j: int|
                            0 <= j < i ==> row_cells_are(
                                #[trigger] cells@[j]@,
                                rows[j],
                                strs_view(cols@),
                            ),
                    decreases items.len() - i,
                {
                    assert(iv[i as int] == items@[i as int].view());
                    match &items[i] {
                        JsonValue::Object(f) => {
                            proof {
                                lemma_object_view(*f);
                            }
                            cells.push(row_cells(f, &cols));
                        },
                        _ => {},
                    }
                    i = i + 1;
                }
            }
            Ok((cols, cells))
        },
        _ => Err(StoreError::ExpectedArrayOrObject),
    }
}

} // verus!
