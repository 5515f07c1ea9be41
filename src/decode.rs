use vstd::prelude::*;
use vstd::utf8::valid_utf8;

use crate::cell::{
    check_float_text, copy_bytes, is_float_text, parse_bool, parse_i64, spec_parse_bool,
    spec_parse_int, CellView, Value,
};
use crate::records::{fields_view, records_view};
use crate::schema::{indices_in_range, DataType, Field};

verus! {

/// Relies on `std::str::from_utf8`: it succeeds exactly on well-formed UTF-8.
#[verifier::external_body]
fn is_utf8(b: &[u8]) -> (r: bool)
    ensures
        r == valid_utf8(b@),
{
    std::str::from_utf8(b).is_ok()
}

/// The cell at `j` of a record; a record too short for it reads as empty.
pub open spec fn cell_of(rec: Seq<Seq<u8>>, j: int) -> Seq<u8> {
    if 0 <= j < rec.len() {
        rec[j]
    } else {
        Seq::empty()
    }
}

/// The value of raw cell text under a column type. An empty cell, or text that is not
/// a value of the type, is null.
pub open spec fn spec_decode(dtype: DataType, s: Seq<u8>) -> CellView {
    if s.len() == 0 {
        CellView::Null
    } else {
        match dtype {
            DataType::Null => CellView::Null,
            DataType::Boolean => match spec_parse_bool(s) {
                Some(b) => CellView::Boolean(b),
                None => CellView::Null,
            },
            DataType::Int64 => match spec_parse_int(s) {
                Some(v) => CellView::Int64(v),
                None => CellView::Null,
            },
            DataType::Float64 => if is_float_text(s) {
                CellView::Float64(s)
            } else {
                CellView::Null
            },
            DataType::Utf8 => if valid_utf8(s) {
                CellView::Utf8(s)
            } else {
                CellView::Null
            },
        }
    }
}

/// Cells of a value sequence.
pub open spec fn values_view(v: Seq<Value>) -> Seq<CellView> {
    Seq::new(v.len(), |i: int| v[i]@)
}

/// Column `j` of `rows`, decoded under `dtype`.
pub open spec fn decoded_column(rows: Seq<Seq<Seq<u8>>>, dtype: DataType, j: int) -> Seq<
    CellView,
> {
    Seq::new(rows.len(), |r: int| spec_decode(dtype, cell_of(rows[r], j)))
}

pub proof fn lemma_decoded_column_concat(
    a: Seq<Seq<Seq<u8>>>,
    b: Seq<Seq<Seq<u8>>>,
    dtype: DataType,
    j: int,
)
    ensures
        decoded_column(a + b, dtype, j) == decoded_column(a, dtype, j) + decoded_column(
            b,
            dtype,
            j,
        ),
{
    assert(decoded_column(a + b, dtype, j) =~= decoded_column(a, dtype, j) + decoded_column(
        b,
        dtype,
        j,
    ));
}

/// Decodes one cell.
pub fn decode_value(dtype: DataType, s: &[u8]) -> (r: Value)
    ensures
        r@ == spec_decode(dtype, s@),
{
    if s.len() == 0 {
        return Value::Null;
    }
    match dtype {
        DataType::Null => Value::Null,
        DataType::Boolean => match parse_bool(s) {
            Some(b) => Value::Boolean(b),
            None => Value::Null,
        },
        DataType::Int64 => match parse_i64(s) {
            Some(v) => Value::Int64(v),
            None => Value::Null,
        },
        DataType::Float64 => if check_float_text(s) {
            Value::Float64(copy_bytes(s))
        } else {
            Value::Null
        },
        DataType::Utf8 => if is_utf8(s) {
            Value::Utf8(copy_bytes(s))
        } else {
            Value::Null
        },
    }
}

/// Decodes column `j` of every record under `dtype`.
pub fn deserialize_column(rows: &Vec<Vec<Vec<u8>>>, j: usize, dtype: DataType) -> (r: Vec<Value>)
    ensures
        values_view(r@) == decoded_column(records_view(rows@), dtype, j as int),
{
    let mut out: Vec<Value> = Vec::new();
    let mut i: usize = 0;
    while i < rows.len()
        invariant
            i <= rows@.len(),
            values_view(out@) == decoded_column(records_view(rows@), dtype, j as int).subrange(
                0,
                i as int,
            ),
        decreases rows@.len() - i,
    {
        let rec = &rows[i];
        let ghost rv = values_view(out@);
        assert(records_view(rows@)[i as int] == fields_view(rec@));
        let v = if j < rec.len() {
            assert(cell_of(fields_view(rec@), j as int) == rec@[j as int]@);
            decode_value(dtype, rec[j].as_slice())
        } else {
            let empty: Vec<u8> = Vec::new();
            proof {
                assert(empty@ =~= Seq::<u8>::empty());
            }
            decode_value(dtype, empty.as_slice())
        };
        assert(v@ == spec_decode(dtype, cell_of(records_view(rows@)[i as int], j as int)));
        out.push(v);
        assert(values_view(out@) =~= rv.push(v@));
        i = i + 1;
        assert(values_view(out@) =~= decoded_column(records_view(rows@), dtype, j as int).subrange(
            0,
            i as int,
        ));
    }
    assert(values_view(out@) =~= decoded_column(records_view(rows@), dtype, j as int));
    out
}

/// Decodes the projected columns of one batch, in projection order: the fragment at `k`
/// is source column `indices[k]` under its field's type.
pub fn decode_batch(rows: &Vec<Vec<Vec<u8>>>, fields: &Vec<Field>, indices: &Vec<usize>) -> (r: Vec<
    Vec<Value>,
>)
    requires
        indices_in_range(indices@, fields@.len()),
    ensures
        r@.len() == indices@.len(),
        forall|k: int|
            0 <= k < r@.len() ==> values_view(#[trigger] r@[k]@) == decoded_column(
                records_view(rows@),
                fields@[indices@[k] as int].dtype,
                indices@[k] as int,
            ),
{
    let mut out: Vec<Vec<Value>> = Vec::new();
    let mut k: usize = 0;
    while k < indices.len()
        invariant
            indices_in_range(indices@, fields@.len()),
            k <= indices@.len(),
            out@.len() == k,
            forall|q: int|
                0 <= q < k ==> values_view(#[trigger] out@[q]@) == decoded_column(
                    records_view(rows@),
                    fields@[indices@[q] as int].dtype,
                    indices@[q] as int,
                ),
        decreases indices@.len() - k,
    {
        let j = indices[k];
        let col = deserialize_column(rows, j, fields[j].dtype);
        out.push(col);
        k = k + 1;
    }
    out
}

} // verus!
