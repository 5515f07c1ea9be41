use vstd::prelude::*;

use crate::cell::{CellView, Value};
use crate::decode::values_view;
use crate::schema::{copy_fields, Field, Schema};

verus! {

/// A columnar table: one column of cells per field, all of the same length.
#[derive(Clone, Debug, PartialEq, Eq)]
pub struct Table {
    pub schema: Schema,
    pub columns: Vec<Vec<Value>>,
    pub num_rows: usize,
}

/// Cells of each column.
pub open spec fn columns_view(cols: Seq<Vec<Value>>) -> Seq<Seq<CellView>> {
    Seq::new(cols.len(), |c: int| values_view(cols[c]@))
}

/// Per batch, per projected column, the cells of one fragment.
pub open spec fn chunks_view(chunks: Seq<Vec<Vec<Value>>>) -> Seq<Seq<Seq<CellView>>> {
    Seq::new(chunks.len(), |b: int| columns_view(chunks[b]@))
}

/// Fragments of column `k` concatenated in batch order.
pub open spec fn concat_fragments(chunks: Seq<Seq<Seq<CellView>>>, k: int) -> Seq<CellView>
    decreases chunks.len(),
{
    if chunks.len() == 0 {
        Seq::empty()
    } else {
        concat_fragments(chunks.drop_last(), k) + chunks.last()[k]
    }
}

impl Table {
    pub open spec fn wf(&self) -> bool {
        &&& self.columns@.len() == self.schema.fields@.len()
        &&& forall|c: int|
            0 <= c < self.columns@.len() ==> (#[trigger] self.columns@[c])@.len() == self.num_rows
    }

    /// Cells of each column.
    pub open spec fn cells(&self) -> Seq<Seq<CellView>> {
        columns_view(self.columns@)
    }

    /// A table with the given fields and no rows.
    pub fn empty(fields: Vec<Field>) -> (r: Table)
        ensures
            r.wf(),
            r.schema.fields@ == fields@,
            r.num_rows == 0,
            forall|c: int| 0 <= c < r.columns@.len() ==> r.columns@[c]@.len() == 0,
    {
        let mut columns: Vec<Vec<Value>> = Vec::new();
        let mut c: usize = 0;
        while c < fields.len()
            invariant
                c <= fields@.len(),
                columns@.len() == c,
                forall|q: int| 0 <= q < c ==> (#[trigger] columns@[q])@.len() == 0,
            decreases fields@.len() - c,
        {
            columns.push(Vec::new());
            c = c + 1;
        }
        Table { schema: Schema { fields }, columns, num_rows: 0 }
    }

    pub fn len(&self) -> (r: usize)
        ensures
            r == self.num_rows,
    {
        self.num_rows
    }

    pub fn num_columns(&self) -> (r: usize)
        ensures
            r == self.columns@.len(),
    {
        self.columns.len()
    }

    pub fn get_column_by_index(&self, c: usize) -> (r: Option<&Vec<Value>>)
        ensures
            c < self.columns@.len() <==> r is Some,
            r is Some ==> *r->Some_0 == self.columns@[c as int],
    {
        if c < self.columns.len() {
            Some(&self.columns[c])
        } else {
            None
        }
    }

    /// Bytes the cells occupy; `None` past `usize::MAX`.
    pub fn size_bytes(&self) -> (r: Option<usize>)
        ensures
            r is Some <==> table_bytes(self.cells()) <= usize::MAX,
            r is Some ==> r->Some_0 == table_bytes(self.cells()),
    {
        let ghost cols = self.cells();
        let mut total: usize = 0;
        let mut c: usize = 0;
        while c < self.columns.len()
            invariant
                cols == self.cells(),
                c <= cols.len(),
                total == table_bytes(cols.subrange(0, c as int)),
            decreases cols.len() - c,
        {
            let col = &self.columns[c];
            let ghost cells = cols[c as int];
            assert(cells == values_view(col@));
            let mut i: usize = 0;
            let mut sum: usize = 0;
            while i < col.len()
                invariant
                    cols == self.cells(),
                    c < cols.len(),
                    cells == cols[c as int],
                    col == &self.columns@[c as int],
                    total == table_bytes(cols.subrange(0, c as int)),
                    cells == values_view(col@),
                    i <= col@.len(),
                    sum == column_bytes(cells.subrange(0, i as int)),
                decreases col@.len() - i,
            {
                proof {
                    assert(cells.subrange(0, i + 1).drop_last() =~= cells.subrange(0, i as int));
                }
                let b = value_bytes(&col[i]);
                proof {
                    assert(cells.subrange(0, i + 1).last() == cells[i as int]);
                    assert(cells[i as int] == col@[i as int]@);
                    assert(column_bytes(cells.subrange(0, i + 1)) == sum + b);
                }
                if sum > usize::MAX - b {
                    proof {
                        lemma_column_bytes_prefix(cells, i + 1);
                        lemma_table_bytes_prefix(cols, c + 1);
                        assert(cols.subrange(0, c + 1).drop_last() =~= cols.subrange(0, c as int));
                        lemma_table_bytes_nonneg(cols.subrange(0, c as int));
                    }
                    return None;
                }
                sum = sum + b;
                i = i + 1;
            }
            proof {
                assert(cells.subrange(0, col@.len() as int) =~= cells);
                assert(cols.subrange(0, c + 1).drop_last() =~= cols.subrange(0, c as int));
                assert(cols.subrange(0, c + 1).last() == cells);
                assert(table_bytes(cols.subrange(0, c + 1)) == total + sum);
            }
            if total > usize::MAX - sum {
                proof {
                    lemma_table_bytes_prefix(cols, c + 1);
                }
                return None;
            }
            total = total + sum;
            c = c + 1;
        }
        proof {
            assert(cols.subrange(0, cols.len() as int) =~= cols);
        }
        Some(total)
    }

    /// Null cells in column `c`; `None` past the last column.
    pub fn null_count(&self, c: usize) -> (r: Option<usize>)
        ensures
            c < self.columns@.len() <==> r is Some,
            r is Some ==> r->Some_0 == count_nulls(self.cells()[c as int]),
    {
        if c >= self.columns.len() {
            return None;
        }
        let col = &self.columns[c];
        let mut n: usize = 0;
        let mut i: usize = 0;
        while i < col.len()
            invariant
                i <= col@.len(),
                n == count_nulls(values_view(col@).subrange(0, i as int)),
                n <= i,
            decreases col@.len() - i,
        {
            let ghost pre = values_view(col@).subrange(0, i as int);
            assert(values_view(col@).subrange(0, i + 1) =~= pre.push(col@[i as int]@));
            assert(pre.push(col@[i as int]@).drop_last() =~= pre);
            if col[i].is_null() {
                n = n + 1;
            }
            i = i + 1;
        }
        assert(values_view(col@).subrange(0, col@.len() as int) =~= values_view(col@));
        Some(n)
    }
}

/// Bytes a cell occupies: none for a null, one for a boolean, eight for a number, the
/// byte length of text.
pub open spec fn cell_bytes(c: CellView) -> int {
    match c {
        CellView::Null => 0,
        CellView::Boolean(_) => 1,
        CellView::Int64(_) => 8,
        CellView::Float64(_) => 8,
        CellView::Utf8(t) => t.len() as int,
    }
}

/// Bytes of a column.
pub open spec fn column_bytes(cells: Seq<CellView>) -> int
    decreases cells.len(),
{
    if cells.len() == 0 {
        0
    } else {
        column_bytes(cells.drop_last()) + cell_bytes(cells.last())
    }
}

/// Bytes of all columns.
pub open spec fn table_bytes(cols: Seq<Seq<CellView>>) -> int
    decreases cols.len(),
{
    if cols.len() == 0 {
        0
    } else {
        table_bytes(cols.drop_last()) + column_bytes(cols.last())
    }
}

proof fn lemma_column_bytes_prefix(cells: Seq<CellView>, i: int)
    requires
        0 <= i <= cells.len(),
    ensures
        0 <= column_bytes(cells.subrange(0, i)) <= column_bytes(cells),
    decreases cells.len() - i,
{
    if i < cells.len() {
        lemma_column_bytes_prefix(cells, i + 1);
        assert(cells.subrange(0, i + 1).drop_last() =~= cells.subrange(0, i));
    } else {
        assert(cells.subrange(0, i) =~= cells);
    }
    lemma_column_bytes_nonneg(cells.subrange(0, i));
}

proof fn lemma_column_bytes_nonneg(cells: Seq<CellView>)
    ensures
        column_bytes(cells) >= 0,
    decreases cells.len(),
{
    if cells.len() > 0 {
        lemma_column_bytes_nonneg(cells.drop_last());
    }
}

proof fn lemma_table_bytes_prefix(cols: Seq<Seq<CellView>>, i: int)
    requires
        0 <= i <= cols.len(),
    ensures
        0 <= table_bytes(cols.subrange(0, i)) <= table_bytes(cols),
    decreases cols.len() - i,
{
    if i < cols.len() {
        lemma_table_bytes_prefix(cols, i + 1);
        assert(cols.subrange(0, i + 1).drop_last() =~= cols.subrange(0, i));
        lemma_column_bytes_nonneg(cols[i]);
    } else {
        assert(cols.subrange(0, i) =~= cols);
    }
    lemma_table_bytes_nonneg(cols.subrange(0, i));
}

pub proof fn lemma_table_bytes_nonneg(cols: Seq<Seq<CellView>>)
    ensures
        table_bytes(cols) >= 0,
    decreases cols.len(),
{
    if cols.len() > 0 {
        lemma_table_bytes_nonneg(cols.drop_last());
        lemma_column_bytes_nonneg(cols.last());
    }
}

fn value_bytes(v: &Value) -> (r: usize)
    ensures
        r == cell_bytes(v@),
{
    match v {
        Value::Null => 0,
        Value::Boolean(_) => 1,
        Value::Int64(_) => 8,
        Value::Float64(_) => 8,
        Value::Utf8(t) => t.len(),
    }
}

/// Null cells in a column.
pub open spec fn count_nulls(cells: Seq<CellView>) -> nat
    decreases cells.len(),
{
    if cells.len() == 0 {
        0
    } else {
        count_nulls(cells.drop_last()) + if cells.last() is Null {
            1nat
        } else {
            0nat
        }
    }
}

/// Assembles a table from per-batch column fragments: each column is its fragments
/// concatenated in batch order, under the given fields. No batches gives an empty
/// table with those fields.
pub fn chunks_to_table(chunks: &Vec<Vec<Vec<Value>>>, fields: &Vec<Field>, num_rows: usize) -> (r:
    Table)
    requires
        forall|b: int| 0 <= b < chunks@.len() ==> (#[trigger] chunks@[b])@.len() == fields@.len(),
        forall|k: int|
            0 <= k < fields@.len() ==> (#[trigger] concat_fragments(chunks_view(chunks@), k)).len()
                == num_rows,
    ensures
        r.wf(),
        r.schema.fields@ == fields@,
        r.num_rows == num_rows,
        forall|k: int|
            0 <= k < fields@.len() ==> #[trigger] r.cells()[k] == concat_fragments(
                chunks_view(chunks@),
                k,
            ),
{
    let mut columns: Vec<Vec<Value>> = Vec::new();
    let mut k: usize = 0;
    while k < fields.len()
        invariant
            forall|b: int| 0 <= b < chunks@.len() ==> (#[trigger] chunks@[b])@.len() == fields@.len(),
            k <= fields@.len(),
            columns@.len() == k,
            forall|q: int|
                0 <= q < k ==> values_view((#[trigger] columns@[q])@) == concat_fragments(
                    chunks_view(chunks@),
                    q,
                ),
        decreases fields@.len() - k,
    {
        let col = concat_column(chunks, k);
        columns.push(col);
        k = k + 1;
    }
    let r = Table { schema: Schema { fields: copy_fields(fields) }, columns, num_rows };
    assert forall|k: int| 0 <= k < fields@.len() implies #[trigger] r.cells()[k]
        == concat_fragments(chunks_view(chunks@), k) by {
        assert(r.cells()[k] == values_view(r.columns@[k]@));
    }
    assert forall|c: int| 0 <= c < r.columns@.len() implies (#[trigger] r.columns@[c])@.len()
        == r.num_rows by {
        assert(values_view(r.columns@[c]@).len() == r.columns@[c]@.len());
        assert(concat_fragments(chunks_view(chunks@), c).len() == num_rows);
    }
    r
}

/// Column `k` of every batch, concatenated in batch order.
fn concat_column(chunks: &Vec<Vec<Vec<Value>>>, k: usize) -> (r: Vec<Value>)
    requires
        forall|b: int| 0 <= b < chunks@.len() ==> k < (#[trigger] chunks@[b])@.len(),
    ensures
        values_view(r@) == concat_fragments(chunks_view(chunks@), k as int),
{
    let mut out: Vec<Value> = Vec::new();
    let mut b: usize = 0;
    while b < chunks.len()
        invariant
            forall|q: int| 0 <= q < chunks@.len() ==> k < (#[trigger] chunks@[q])@.len(),
            b <= chunks@.len(),
            values_view(out@) == concat_fragments(
                chunks_view(chunks@).subrange(0, b as int),
                k as int,
            ),
        decreases chunks@.len() - b,
    {
        let frag = &chunks[b][k];
        let ghost before = values_view(out@);
        let mut i: usize = 0;
        while i < frag.len()
            invariant
                i <= frag@.len(),
                values_view(out@) == before + values_view(frag@).subrange(0, i as int),
            decreases frag@.len() - i,
        {
            let v = frag[i].copy();
            let ghost o = values_view(out@);
            out.push(v);
            assert(values_view(out@) =~= o.push(v@));
            i = i + 1;
            assert(values_view(out@) =~= before + values_view(frag@).subrange(0, i as int));
        }
        proof {
            let cv = chunks_view(chunks@);
            assert(cv.subrange(0, b + 1).drop_last() =~= cv.subrange(0, b as int));
            assert(cv.subrange(0, b + 1).last() == columns_view(chunks@[b as int]@));
            assert(columns_view(chunks@[b as int]@)[k as int] == values_view(frag@));
            assert(values_view(frag@).subrange(0, frag@.len() as int) =~= values_view(frag@));
        }
        b = b + 1;
    }
    assert(chunks_view(chunks@).subrange(0, chunks@.len() as int) =~= chunks_view(chunks@));
    out
}

} // verus!
