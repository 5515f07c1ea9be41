use vstd::prelude::*;
use vstd::utf8::{decode_utf8, valid_utf8};

use crate::cell::{check_float_text, is_float_text, parse_bool, parse_i64, spec_parse_bool, spec_parse_int};
use crate::records::{fields_view, records_view};
use crate::schema::{DataType, Field};

verus! {

/// What `String::from_utf8_lossy` makes of a byte sequence.
pub uninterp spec fn utf8_lossy(b: Seq<u8>) -> Seq<char>;

/// Relies on `String::from_utf8_lossy`: the result depends on the bytes alone, and
/// well-formed UTF-8 is decoded unchanged.
#[verifier::external_body]
pub(crate) fn text_from_bytes(b: &[u8]) -> (r: String)
    ensures
        r@ == utf8_lossy(b@),
        valid_utf8(b@) ==> r@ == decode_utf8(b@),
{
    String::from_utf8_lossy(b).into_owned()
}

/// Type suggested by one non-empty cell: boolean, integer, float, else text.
pub open spec fn spec_infer_cell(s: Seq<u8>) -> Option<DataType> {
    if s.len() == 0 {
        None
    } else if spec_parse_bool(s) is Some {
        Some(DataType::Boolean)
    } else if spec_parse_int(s) is Some {
        Some(DataType::Int64)
    } else if is_float_text(s) {
        Some(DataType::Float64)
    } else {
        Some(DataType::Utf8)
    }
}

/// Widest of two suggestions: integers widen to floats, any other disagreement to text.
pub open spec fn merge_types(a: Option<DataType>, b: Option<DataType>) -> Option<DataType> {
    match (a, b) {
        (None, _) => b,
        (_, None) => a,
        (Some(x), Some(y)) => if x == y {
            a
        } else if (x == DataType::Int64 && y == DataType::Float64) || (x == DataType::Float64 && y
            == DataType::Int64) {
            Some(DataType::Float64)
        } else {
            Some(DataType::Utf8)
        },
    }
}

/// Suggestion for column `j` over `rows`.
pub open spec fn spec_column_type(rows: Seq<Seq<Seq<u8>>>, j: int) -> Option<DataType>
    decreases rows.len(),
{
    if rows.len() == 0 {
        None
    } else {
        merge_types(
            spec_column_type(rows.drop_last(), j),
            spec_infer_cell(if 0 <= j < rows.last().len() {
                rows.last()[j]
            } else {
                Seq::empty()
            }),
        )
    }
}

/// Inferred type of column `j`; a column with no value is text.
pub open spec fn spec_inferred_type(rows: Seq<Seq<Seq<u8>>>, j: int) -> DataType {
    match spec_column_type(rows, j) {
        Some(t) => t,
        None => DataType::Utf8,
    }
}

/// Decimal digits of `n`.
pub open spec fn decimal(n: nat) -> Seq<u8>
    decreases n,
{
    if n < 10 {
        seq![(48 + n) as u8]
    } else {
        decimal(n / 10).push((48 + n % 10) as u8)
    }
}

/// `column_` followed by the decimal digits of `n`.
pub open spec fn default_name_bytes(n: nat) -> Seq<u8> {
    seq![99u8, 111u8, 108u8, 117u8, 109u8, 110u8, 95u8] + decimal(n)
}

pub(crate) fn push_decimal(out: &mut Vec<u8>, n: usize)
    ensures
        final(out)@ == old(out)@ + decimal(n as nat),
    decreases n,
{
    if n >= 10 {
        push_decimal(out, n / 10);
    }
    let ghost mid = out@;
    out.push(48u8 + (n % 10) as u8);
    proof {
        if n >= 10 {
            assert(final(out)@ =~= old(out)@ + decimal(n as nat)) by {
                assert(mid == old(out)@ + decimal((n / 10) as nat));
            }
        } else {
            assert(final(out)@ =~= old(out)@ + decimal(n as nat));
        }
    }
}

fn infer_cell(s: &[u8]) -> (r: Option<DataType>)
    ensures
        r == spec_infer_cell(s@),
{
    if s.len() == 0 {
        None
    } else if parse_bool(s).is_some() {
        Some(DataType::Boolean)
    } else if parse_i64(s).is_some() {
        Some(DataType::Int64)
    } else if check_float_text(s) {
        Some(DataType::Float64)
    } else {
        Some(DataType::Utf8)
    }
}

fn merge(a: Option<DataType>, b: Option<DataType>) -> (r: Option<DataType>)
    ensures
        r == merge_types(a, b),
{
    match (a, b) {
        (None, _) => b,
        (_, None) => a,
        (Some(x), Some(y)) => if x == y {
            a
        } else if (x == DataType::Int64 && y == DataType::Float64) || (x == DataType::Float64 && y
            == DataType::Int64) {
            Some(DataType::Float64)
        } else {
            Some(DataType::Utf8)
        },
    }
}

/// Inferred type of column `j` over `rows[start..]`.
fn infer_column(rows: &Vec<Vec<Vec<u8>>>, start: usize, j: usize) -> (r: DataType)
    requires
        start <= rows@.len(),
    ensures
        r == spec_inferred_type(records_view(rows@).skip(start as int), j as int),
{
    let ghost all = records_view(rows@);
    let mut acc: Option<DataType> = None;
    let mut i: usize = start;
    assert(all.subrange(start as int, start as int) =~= Seq::<Seq<Seq<u8>>>::empty());
    while i < rows.len()
        invariant
            start <= i <= rows@.len(),
            all == records_view(rows@),
            acc == spec_column_type(all.subrange(start as int, i as int), j as int),
        decreases rows@.len() - i,
    {
        let rec = &rows[i];
        let c = if j < rec.len() {
            infer_cell(rec[j].as_slice())
        } else {
            let empty: Vec<u8> = Vec::new();
            proof {
                assert(empty@ =~= Seq::<u8>::empty());
            }
            infer_cell(empty.as_slice())
        };
        proof {
            let next = all.subrange(start as int, i + 1);
            assert(next.drop_last() =~= all.subrange(start as int, i as int));
            assert(next.last() == fields_view(rec@));
        }
        acc = merge(acc, c);
        i = i + 1;
    }
    assert(all.subrange(start as int, rows@.len() as int) =~= all.skip(start as int));
    match acc {
        Some(t) => t,
        None => DataType::Utf8,
    }
}

/// Fields inferred from split records: as many as the first record has, named by the
/// header row when there is one (else `column_1`, `column_2`, ...), typed from the
/// data rows that follow.
pub fn infer_fields(rows: &Vec<Vec<Vec<u8>>>, has_header: bool) -> (r: Vec<Field>)
    ensures
        rows@.len() == 0 ==> r@.len() == 0,
        rows@.len() > 0 ==> ({
            let all = records_view(rows@);
            let data = all.skip(if has_header {
                1int
            } else {
                0int
            });
            &&& r@.len() == all[0].len()
            &&& forall|j: int|
                0 <= j < r@.len() ==> {
                    &&& (#[trigger] r@[j]).dtype == spec_inferred_type(data, j)
                    &&& r@[j].nullable
                    &&& has_header ==> r@[j].name@ == utf8_lossy(all[0][j])
                    &&& !has_header ==> r@[j].name@ == utf8_lossy(default_name_bytes((j + 1) as nat))
                }
        }),
{
    let mut out: Vec<Field> = Vec::new();
    if rows.len() == 0 {
        return out;
    }
    let first = &rows[0];
    let start: usize = if has_header {
        1
    } else {
        0
    };
    let ghost all = records_view(rows@);
    assert(all[0] == fields_view(first@));
    let mut j: usize = 0;
    while j < first.len()
        invariant
            rows@.len() > 0,
            all == records_view(rows@),
            all[0] == fields_view(first@),
            start == if has_header {
                1usize
            } else {
                0usize
            },
            j <= first@.len(),
            out@.len() == j,
            forall|q: int|
                0 <= q < j ==> {
                    &&& (#[trigger] out@[q]).dtype == spec_inferred_type(all.skip(start as int), q)
                    &&& out@[q].nullable
                    &&& has_header ==> out@[q].name@ == utf8_lossy(all[0][q])
                    &&& !has_header ==> out@[q].name@ == utf8_lossy(default_name_bytes((q + 1) as nat))
                },
        decreases first@.len() - j,
    {
        let name = if has_header {
            text_from_bytes(first[j].as_slice())
        } else {
            let mut b: Vec<u8> = vec![99u8, 111u8, 108u8, 117u8, 109u8, 110u8, 95u8];
            proof {
                assert(b@ =~= seq![99u8, 111u8, 108u8, 117u8, 109u8, 110u8, 95u8]);
            }
            push_decimal(&mut b, j + 1);
            text_from_bytes(b.as_slice())
        };
        let dtype = infer_column(rows, start, j);
        out.push(Field::new(name, dtype));
        j = j + 1;
    }
    out
}

} // verus!
