use vstd::prelude::*;

use crate::cell::{CellView, Value};
use crate::decode::values_view;
use crate::error::Error;
use crate::schema::{index_of_name, position_of, Field, lemma_position_in_range};
use crate::table::Table;

verus! {

/// Comparison of a column against a constant.
#[derive(Clone, Copy, Debug, PartialEq, Eq, Structural, Hash)]
pub enum CmpOp {
    Eq,
    Lt,
    LtEq,
    Gt,
    GtEq,
}

/// `column op value` over integer cells; any other cell fails it.
#[derive(Clone, Debug, PartialEq, Eq)]
pub struct Predicate {
    pub column: String,
    pub op: CmpOp,
    pub value: i64,
}

pub open spec fn compare(op: CmpOp, a: int, b: int) -> bool {
    match op {
        CmpOp::Eq => a == b,
        CmpOp::Lt => a < b,
        CmpOp::LtEq => a <= b,
        CmpOp::Gt => a > b,
        CmpOp::GtEq => a >= b,
    }
}

/// Whether a cell passes `op value`.
pub open spec fn cell_passes(op: CmpOp, value: i64, c: CellView) -> bool {
    match c {
        CellView::Int64(v) => compare(op, v, value as int),
        _ => false,
    }
}

/// Every predicate names a field.
pub open spec fn preds_resolve(fields: Seq<Field>, preds: Seq<Predicate>) -> bool {
    forall|i: int| 0 <= i < preds.len() ==> position_of(fields, (#[trigger] preds[i]).column@) is Some
}

/// A row (one cell per field) passes every predicate.
pub open spec fn row_passes(fields: Seq<Field>, preds: Seq<Predicate>, row: Seq<CellView>) -> bool {
    forall|i: int|
        0 <= i < preds.len() ==> cell_passes(
            (#[trigger] preds[i]).op,
            preds[i].value,
            row[position_of(fields, preds[i].column@)->Some_0],
        )
}

/// Row `r` of a table's cells.
pub open spec fn row_of(cells: Seq<Seq<CellView>>, r: int) -> Seq<CellView> {
    Seq::new(cells.len(), |c: int| cells[c][r])
}

/// Indices of rows below `n` that pass every predicate, in order.
pub open spec fn kept_rows(fields: Seq<Field>, preds: Seq<Predicate>, cells: Seq<Seq<CellView>>, n: int) -> Seq<int>
    decreases n,
{
    if n <= 0 {
        Seq::empty()
    } else if row_passes(fields, preds, row_of(cells, n - 1)) {
        kept_rows(fields, preds, cells, n - 1).push(n - 1)
    } else {
        kept_rows(fields, preds, cells, n - 1)
    }
}

/// Cells of the kept rows, column by column.
pub open spec fn filtered_cells(cells: Seq<Seq<CellView>>, kept: Seq<int>) -> Seq<Seq<CellView>> {
    Seq::new(cells.len(), |c: int| Seq::new(kept.len(), |i: int| cells[c][kept[i]]))
}

proof fn lemma_kept_bounds(fields: Seq<Field>, preds: Seq<Predicate>, cells: Seq<Seq<CellView>>, n: int)
    requires
        n >= 0,
    ensures
        kept_rows(fields, preds, cells, n).len() <= n,
        forall|i: int|
            0 <= i < kept_rows(fields, preds, cells, n).len() ==> 0 <= #[trigger] kept_rows(
                fields,
                preds,
                cells,
                n,
            )[i] < n,
    decreases n,
{
    if n > 0 {
        lemma_kept_bounds(fields, preds, cells, n - 1);
    }
}

proof fn lemma_row_passes_concat(
    fields: Seq<Field>,
    a: Seq<Predicate>,
    b: Seq<Predicate>,
    row: Seq<CellView>,
)
    ensures
        row_passes(fields, a + b, row) == (row_passes(fields, a, row) && row_passes(fields, b, row)),
{
    let ab = a + b;
    if row_passes(fields, a, row) && row_passes(fields, b, row) {
        assert forall|i: int| 0 <= i < ab.len() implies cell_passes(
            (#[trigger] ab[i]).op,
            ab[i].value,
            row[position_of(fields, ab[i].column@)->Some_0],
        ) by {
            if i < a.len() {
                assert(ab[i] == a[i]);
            } else {
                assert(ab[i] == b[i - a.len()]);
            }
        }
    }
    if row_passes(fields, ab, row) {
        assert forall|i: int| 0 <= i < a.len() implies cell_passes(
            (#[trigger] a[i]).op,
            a[i].value,
            row[position_of(fields, a[i].column@)->Some_0],
        ) by {
            assert(ab[i] == a[i]);
        }
        assert forall|i: int| 0 <= i < b.len() implies cell_passes(
            (#[trigger] b[i]).op,
            b[i].value,
            row[position_of(fields, b[i].column@)->Some_0],
        ) by {
            assert(ab[i + a.len()] == b[i]);
        }
    }
}

/// Kept rows below `m` depend only on the rows below `m`.
proof fn lemma_kept_prefix(
    fields: Seq<Field>,
    preds: Seq<Predicate>,
    c1: Seq<Seq<CellView>>,
    c2: Seq<Seq<CellView>>,
    m: int,
)
    requires
        forall|r: int| 0 <= r < m ==> #[trigger] row_of(c1, r) == row_of(c2, r),
    ensures
        kept_rows(fields, preds, c1, m) == kept_rows(fields, preds, c2, m),
    decreases m,
{
    if m > 0 {
        lemma_kept_prefix(fields, preds, c1, c2, m - 1);
        assert(row_of(c1, m - 1) == row_of(c2, m - 1));
    }
}

proof fn lemma_row_of_filtered(cells: Seq<Seq<CellView>>, kept: Seq<int>, j: int)
    requires
        0 <= j < kept.len(),
    ensures
        row_of(filtered_cells(cells, kept), j) =~= row_of(cells, kept[j]),
{
}

/// Indices kept by `a ++ b`: those kept by `a` whose rows `b` then keeps.
proof fn lemma_kept_concat(
    fields: Seq<Field>,
    a: Seq<Predicate>,
    b: Seq<Predicate>,
    cells: Seq<Seq<CellView>>,
    n: int,
)
    requires
        n >= 0,
    ensures
        ({
            let ka = kept_rows(fields, a, cells, n);
            let kb = kept_rows(fields, b, filtered_cells(cells, ka), ka.len() as int);
            kept_rows(fields, a + b, cells, n) == Seq::new(kb.len(), |i: int| ka[kb[i]])
        }),
    decreases n,
{
    let ka = kept_rows(fields, a, cells, n);
    let kb = kept_rows(fields, b, filtered_cells(cells, ka), ka.len() as int);
    if n > 0 {
        lemma_kept_concat(fields, a, b, cells, n - 1);
        lemma_row_passes_concat(fields, a, b, row_of(cells, n - 1));
        let ka0 = kept_rows(fields, a, cells, n - 1);
        let d0 = filtered_cells(cells, ka0);
        let d = filtered_cells(cells, ka);
        let kb0 = kept_rows(fields, b, d0, ka0.len() as int);
        lemma_kept_bounds(fields, a, cells, n - 1);
        lemma_kept_bounds(fields, b, d0, ka0.len() as int);
        if row_passes(fields, a, row_of(cells, n - 1)) {
            assert(ka == ka0.push(n - 1));
            let m = ka.len() as int;
            assert forall|r: int| 0 <= r < m - 1 implies #[trigger] row_of(d, r) == row_of(d0, r) by {
                lemma_row_of_filtered(cells, ka, r);
                lemma_row_of_filtered(cells, ka0, r);
                assert(ka[r] == ka0[r]);
            }
            lemma_kept_prefix(fields, b, d, d0, m - 1);
            lemma_row_of_filtered(cells, ka, m - 1);
            assert(row_of(d, m - 1) == row_of(cells, n - 1));
            if row_passes(fields, b, row_of(cells, n - 1)) {
                assert(kb == kb0.push(m - 1));
            } else {
                assert(kb == kb0);
            }
            assert(kept_rows(fields, a + b, cells, n) =~= Seq::new(kb.len(), |i: int| ka[kb[i]]));
        } else {
            assert(ka == ka0);
            assert(kept_rows(fields, a + b, cells, n) =~= Seq::new(kb.len(), |i: int| ka[kb[i]]));
        }
    } else {
        assert(kept_rows(fields, a + b, cells, n) =~= Seq::new(kb.len(), |i: int| ka[kb[i]]));
    }
}

/// Filtering by `a ++ b` gives the rows that filtering by `a` and then by `b` gives.
pub proof fn lemma_filter_concat(
    fields: Seq<Field>,
    a: Seq<Predicate>,
    b: Seq<Predicate>,
    cells: Seq<Seq<CellView>>,
    n: int,
)
    requires
        n >= 0,
    ensures
        ({
            let ka = kept_rows(fields, a, cells, n);
            let once = kept_rows(fields, a + b, cells, n);
            let mid = filtered_cells(cells, ka);
            let kb = kept_rows(fields, b, mid, ka.len() as int);
            &&& once.len() == kb.len()
            &&& filtered_cells(cells, once) == filtered_cells(mid, kb)
        }),
{
    lemma_kept_concat(fields, a, b, cells, n);
    let ka = kept_rows(fields, a, cells, n);
    let mid = filtered_cells(cells, ka);
    let kb = kept_rows(fields, b, mid, ka.len() as int);
    let once = kept_rows(fields, a + b, cells, n);
    lemma_kept_bounds(fields, b, mid, ka.len() as int);
    assert forall|c: int| 0 <= c < cells.len() implies #[trigger] filtered_cells(cells, once)[c]
        == filtered_cells(mid, kb)[c] by {
        assert forall|i: int| 0 <= i < once.len() implies filtered_cells(cells, once)[c][i]
            == filtered_cells(mid, kb)[c][i] by {
            assert(once[i] == ka[kb[i]]);
            assert(0 <= kb[i] < ka.len());
        }
        assert(filtered_cells(cells, once)[c] =~= filtered_cells(mid, kb)[c]);
    }
    assert(filtered_cells(cells, once) =~= filtered_cells(mid, kb));
}

pub fn copy_predicate(p: &Predicate) -> (r: Predicate)
    ensures
        r == *p,
{
    Predicate { column: p.column.clone(), op: p.op, value: p.value }
}

pub fn copy_predicates(ps: &Vec<Predicate>) -> (r: Vec<Predicate>)
    ensures
        r@ == ps@,
{
    let mut out: Vec<Predicate> = Vec::new();
    let mut i: usize = 0;
    while i < ps.len()
        invariant
            i <= ps@.len(),
            out@ == ps@.subrange(0, i as int),
        decreases ps@.len() - i,
    {
        out.push(copy_predicate(&ps[i]));
        i = i + 1;
        assert(out@ =~= ps@.subrange(0, i as int));
    }
    assert(out@ =~= ps@);
    out
}

fn passes(op: CmpOp, value: i64, c: &Value) -> (r: bool)
    ensures
        r == cell_passes(op, value, c@),
{
    match c {
        Value::Int64(v) => match op {
            CmpOp::Eq => *v == value,
            CmpOp::Lt => *v < value,
            CmpOp::LtEq => *v <= value,
            CmpOp::Gt => *v > value,
            CmpOp::GtEq => *v >= value,
        },
        _ => false,
    }
}

/// Column positions of the predicates' columns.
fn resolve(fields: &Vec<Field>, preds: &Vec<Predicate>) -> (r: Result<Vec<usize>, Error>)
    ensures
        r is Ok <==> preds_resolve(fields@, preds@),
        r is Ok ==> r->Ok_0@.len() == preds@.len() && forall|i: int|
            0 <= i < preds@.len() ==> (#[trigger] r->Ok_0@[i]) as int == position_of(
                fields@,
                preds@[i].column@,
            )->Some_0 && r->Ok_0@[i] < fields@.len(),
        r is Err ==> r->Err_0 is ColumnNotFound,
{
    let mut out: Vec<usize> = Vec::new();
    let mut i: usize = 0;
    while i < preds.len()
        invariant
            i <= preds@.len(),
            out@.len() == i,
            forall|q: int| 0 <= q < i ==> position_of(fields@, (#[trigger] preds@[q]).column@) is Some,
            forall|q: int|
                0 <= q < i ==> (#[trigger] out@[q]) as int == position_of(
                    fields@,
                    preds@[q].column@,
                )->Some_0 && out@[q] < fields@.len(),
        decreases preds@.len() - i,
    {
        match index_of_name(fields, &preds[i].column) {
            Some(j) => {
                proof {
                    lemma_position_in_range(fields@, preds@[i as int].column@);
                }
                out.push(j);
            },
            None => {
                return Err(Error::ColumnNotFound { name: preds[i].column.clone() });
            },
        }
        i = i + 1;
    }
    Ok(out)
}

/// Cells of `col` at the positions `keep`, in that order.
fn gather(col: &Vec<Value>, keep: &Vec<usize>) -> (r: Vec<Value>)
    requires
        forall|i: int| 0 <= i < keep@.len() ==> #[trigger] keep@[i] < col@.len(),
    ensures
        values_view(r@) == Seq::new(keep@.len(), |i: int| values_view(col@)[keep@[i] as int]),
{
    let mut out: Vec<Value> = Vec::new();
    let mut i: usize = 0;
    while i < keep.len()
        invariant
            forall|q: int| 0 <= q < keep@.len() ==> #[trigger] keep@[q] < col@.len(),
            i <= keep@.len(),
            values_view(out@) == Seq::new(i as nat, |q: int| values_view(col@)[keep@[q] as int]),
        decreases keep@.len() - i,
    {
        let v = col[keep[i]].copy();
        let ghost o = values_view(out@);
        out.push(v);
        assert(values_view(out@) =~= o.push(v@));
        i = i + 1;
        assert(values_view(out@) =~= Seq::new(
            i as nat,
            |q: int| values_view(col@)[keep@[q] as int],
        ));
    }
    out
}

/// Whether row `r` of `t` passes every predicate, given their column positions.
fn row_passes_at(t: &Table, preds: &Vec<Predicate>, cols: &Vec<usize>, r: usize) -> (ok: bool)
    requires
        t.wf(),
        r < t.num_rows,
        cols@.len() == preds@.len(),
        forall|q: int|
            0 <= q < preds@.len() ==> (#[trigger] cols@[q]) as int == position_of(
                t.schema.fields@,
                preds@[q].column@,
            )->Some_0 && cols@[q] < t.schema.fields@.len(),
    ensures
        ok == row_passes(t.schema.fields@, preds@, row_of(t.cells(), r as int)),
{
    let ghost fields = t.schema.fields@;
    let ghost row = row_of(t.cells(), r as int);
    let mut ok = true;
    let mut i: usize = 0;
    while i < preds.len()
        invariant
            t.wf(),
            r < t.num_rows,
            i <= preds@.len(),
            cols@.len() == preds@.len(),
            fields == t.schema.fields@,
            row == row_of(t.cells(), r as int),
            forall|q: int|
                0 <= q < preds@.len() ==> (#[trigger] cols@[q]) as int == position_of(
                    fields,
                    preds@[q].column@,
                )->Some_0 && cols@[q] < fields.len(),
            ok == forall|q: int|
                0 <= q < i ==> cell_passes(
                    (#[trigger] preds@[q]).op,
                    preds@[q].value,
                    row[position_of(fields, preds@[q].column@)->Some_0],
                ),
        decreases preds@.len() - i,
    {
        let j = cols[i];
        let p = passes(preds[i].op, preds[i].value, &t.columns[j][r]);
        proof {
            assert(cols@[i as int] == j);
            assert(t.columns@[j as int]@.len() == t.num_rows);
            assert(row[j as int] == t.columns@[j as int]@[r as int]@);
        }
        ok = ok && p;
        i = i + 1;
        proof {
            if !ok {
                assert(exists|q: int|
                    0 <= q < i && !cell_passes(
                        (#[trigger] preds@[q]).op,
                        preds@[q].value,
                        row[position_of(fields, preds@[q].column@)->Some_0],
                    ));
            }
        }
    }
    ok
}

/// The rows of `t` that pass every predicate, in order, under the same fields. A
/// predicate on a column the table lacks is an error.
pub fn filter_table(t: &Table, preds: &Vec<Predicate>) -> (r: Result<Table, Error>)
    requires
        t.wf(),
    ensures
        r is Ok <==> preds_resolve(t.schema.fields@, preds@),
        r is Ok ==> ({
            let kept = kept_rows(t.schema.fields@, preds@, t.cells(), t.num_rows as int);
            &&& r->Ok_0.wf()
            &&& r->Ok_0.schema.fields@ == t.schema.fields@
            &&& r->Ok_0.num_rows == kept.len()
            &&& r->Ok_0.cells() == filtered_cells(t.cells(), kept)
        }),
        r is Err ==> r->Err_0 is ColumnNotFound,
{
    let cols = match resolve(&t.schema.fields, preds) {
        Ok(c) => c,
        Err(e) => {
            return Err(e);
        },
    };
    let ghost fields = t.schema.fields@;
    let ghost cells = t.cells();
    let mut keep: Vec<usize> = Vec::new();
    let mut r: usize = 0;
    while r < t.num_rows
        invariant
            t.wf(),
            fields == t.schema.fields@,
            cells == t.cells(),
            r <= t.num_rows,
            cols@.len() == preds@.len(),
            forall|q: int|
                0 <= q < preds@.len() ==> (#[trigger] cols@[q]) as int == position_of(
                    fields,
                    preds@[q].column@,
                )->Some_0 && cols@[q] < fields.len(),
            keep@.len() == kept_rows(fields, preds@, cells, r as int).len(),
            forall|i: int|
                0 <= i < keep@.len() ==> #[trigger] keep@[i] as int == kept_rows(
                    fields,
                    preds@,
                    cells,
                    r as int,
                )[i],
        decreases t.num_rows - r,
    {
        if row_passes_at(t, preds, &cols, r) {
            keep.push(r);
        }
        r = r + 1;
    }
    proof {
        lemma_kept_bounds(fields, preds@, cells, t.num_rows as int);
    }
    let ghost kept = kept_rows(fields, preds@, cells, t.num_rows as int);
    let mut out: Vec<Vec<Value>> = Vec::new();
    let mut c: usize = 0;
    while c < t.columns.len()
        invariant
            t.wf(),
            cells == t.cells(),
            kept == kept_rows(fields, preds@, cells, t.num_rows as int),
            keep@.len() == kept.len(),
            kept.len() <= t.num_rows,
            forall|i: int| 0 <= i < keep@.len() ==> #[trigger] keep@[i] as int == kept[i],
            forall|i: int| 0 <= i < kept.len() ==> 0 <= #[trigger] kept[i] < t.num_rows,
            c <= t.columns@.len(),
            out@.len() == c,
            forall|q: int|
                0 <= q < c ==> #[trigger] values_view(out@[q]@) == filtered_cells(cells, kept)[q],
            forall|q: int| 0 <= q < c ==> (#[trigger] out@[q])@.len() == kept.len(),
        decreases t.columns@.len() - c,
    {
        proof {
            assert forall|i: int| 0 <= i < keep@.len() implies #[trigger] keep@[i]
                < t.columns@[c as int]@.len() by {
                assert(kept[i] < t.num_rows);
            }
        }
        let col = gather(&t.columns[c], &keep);
        proof {
            assert(values_view(col@) =~= filtered_cells(cells, kept)[c as int]);
        }
        out.push(col);
        c = c + 1;
    }
    let res = Table { schema: t.schema.copy(), columns: out, num_rows: keep.len() };
    proof {
        assert(res.cells() =~= filtered_cells(cells, kept));
    }
    Ok(res)
}

} // verus!
