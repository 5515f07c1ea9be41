use vstd::prelude::*;

use crate::cell::CellView;
use crate::decode::{cell_of, decoded_column, spec_decode};
use crate::error::Error;
use crate::options::{CsvConvertOptions, CsvParseOptions};
use crate::reader::{
    base_fields_hold, final_fields, header_rows, read_outcome, rows_read, table_holds,
};
use crate::records::{all_records, consistent};
use crate::schema::{
    fields_alike, lemma_position_in_range, lemma_position_of_alike, lemma_position_of_present,
    names_unique, names_view, position_of, projected_fields, spec_projection, Field,
};
use crate::table::{count_nulls, Table};

verus! {

/// The outcome of a read is fixed by the input and the conversion settings: two reads
/// that differ only in buffer or chunk sizes (or in the size estimate they start from)
/// both fail or both give tables with the same fields, row count and cells.
pub proof fn lemma_read_ignores_batching(
    r1: Result<Table, Error>,
    r2: Result<Table, Error>,
    data: Seq<u8>,
    parse: CsvParseOptions,
    fields: Seq<Field>,
    limit: Option<usize>,
    wanted: Option<Seq<String>>,
)
    requires
        read_outcome(r1, data, parse, fields, limit, wanted),
        read_outcome(r2, data, parse, fields, limit, wanted),
    ensures
        r1 is Ok <==> r2 is Ok,
        r1 is Ok ==> r1->Ok_0.schema.fields@ == r2->Ok_0.schema.fields@ && r1->Ok_0.num_rows
            == r2->Ok_0.num_rows && r1->Ok_0.cells() == r2->Ok_0.cells(),
{
    if r1 is Ok && r2 is Ok {
        let t1 = r1->Ok_0;
        let t2 = r2->Ok_0;
        let idx = spec_projection(fields, wanted)->Some_0;
        assert(t1.cells().len() == idx.len());
        assert(t2.cells().len() == idx.len());
        assert(t1.cells() =~= t2.cells());
    }
}

/// Field lists that are alike project alike.
proof fn lemma_projection_alike(f: Seq<Field>, g: Seq<Field>, wanted: Option<Seq<String>>)
    requires
        fields_alike(f, g),
    ensures
        spec_projection(f, wanted) == spec_projection(g, wanted),
        spec_projection(f, wanted) is Some ==> fields_alike(
            projected_fields(f, spec_projection(f, wanted)->Some_0),
            projected_fields(g, spec_projection(f, wanted)->Some_0),
        ),
{
    match wanted {
        None => {},
        Some(cols) => {
            assert forall|k: int| 0 <= k < cols.len() implies position_of(f, (#[trigger] cols[k])@)
                == position_of(g, cols[k]@) by {
                lemma_position_of_alike(f, g, cols[k]@);
            }
            if forall|k: int| 0 <= k < cols.len() ==> position_of(f, cols[k]@) is Some {
                assert(Seq::new(cols.len(), |k: int| position_of(f, cols[k]@)->Some_0 as usize)
                    =~= Seq::new(cols.len(), |k: int| position_of(g, cols[k]@)->Some_0 as usize));
            }
        },
    }
    if spec_projection(f, wanted) is Some {
        let idx = spec_projection(f, wanted)->Some_0;
        match wanted {
            None => {},
            Some(cols) => {
                assert forall|k: int| 0 <= k < idx.len() implies 0 <= #[trigger] idx[k] < f.len() by {
                    lemma_position_in_range(f, cols[k]@);
                    assert(idx[k] == position_of(f, cols[k]@)->Some_0 as usize);
                }
            },
        }
        assert forall|k: int| 0 <= k < idx.len() implies (#[trigger] projected_fields(f, idx)[k]).name@
            == projected_fields(g, idx)[k].name@ && projected_fields(f, idx)[k].dtype
            == projected_fields(g, idx)[k].dtype && projected_fields(f, idx)[k].nullable
            == projected_fields(g, idx)[k].nullable by {
            match wanted {
                None => {},
                Some(cols) => {
                    lemma_position_in_range(f, cols[k]@);
                    assert(idx[k] == position_of(f, cols[k]@)->Some_0 as usize);
                },
            }
            assert(f[idx[k] as int] == projected_fields(f, idx)[k]);
        }
    }
}

/// Reads of the same input under alike field lists both fail or give tables with alike
/// fields and the same rows and cells.
pub proof fn lemma_read_outcome_alike(
    r1: Result<Table, Error>,
    r2: Result<Table, Error>,
    data: Seq<u8>,
    parse: CsvParseOptions,
    f1: Seq<Field>,
    f2: Seq<Field>,
    limit: Option<usize>,
    wanted: Option<Seq<String>>,
)
    requires
        fields_alike(f1, f2),
        read_outcome(r1, data, parse, f1, limit, wanted),
        read_outcome(r2, data, parse, f2, limit, wanted),
    ensures
        r1 is Ok <==> r2 is Ok,
        r1 is Ok ==> fields_alike(r1->Ok_0.schema.fields@, r2->Ok_0.schema.fields@)
            && r1->Ok_0.num_rows == r2->Ok_0.num_rows && r1->Ok_0.cells() == r2->Ok_0.cells(),
{
    lemma_projection_alike(f1, f2, wanted);
    if r1 is Ok && r2 is Ok {
        let t1 = r1->Ok_0;
        let t2 = r2->Ok_0;
        let idx = spec_projection(f1, wanted)->Some_0;
        assert(t1.cells().len() == idx.len());
        assert(t2.cells().len() == idx.len());
        assert forall|k: int| 0 <= k < idx.len() implies t1.cells()[k] == t2.cells()[k] by {
            assert(f1[idx[k] as int].dtype == projected_fields(f1, idx)[k].dtype);
            assert(f2[idx[k] as int].dtype == projected_fields(f2, idx)[k].dtype);
        }
        assert(t1.cells() =~= t2.cells());
    }
}

/// Two reads of the same input with the same conversion and parse settings, whatever
/// their buffer and chunk sizes, both fail or give tables with alike fields and the same
/// rows and cells.
pub proof fn lemma_read_csv_ignores_batching(
    r1: Result<Table, Error>,
    r2: Result<Table, Error>,
    data: Seq<u8>,
    convert: CsvConvertOptions,
    parse: CsvParseOptions,
)
    requires
        exists|base: Seq<Field>|
            base_fields_hold(base, data, convert, parse) && read_outcome(
                r1,
                data,
                parse,
                final_fields(base, convert),
                convert.limit,
                names_view(convert.include_columns),
            ),
        exists|base: Seq<Field>|
            base_fields_hold(base, data, convert, parse) && read_outcome(
                r2,
                data,
                parse,
                final_fields(base, convert),
                convert.limit,
                names_view(convert.include_columns),
            ),
    ensures
        r1 is Ok <==> r2 is Ok,
        r1 is Ok ==> fields_alike(r1->Ok_0.schema.fields@, r2->Ok_0.schema.fields@)
            && r1->Ok_0.num_rows == r2->Ok_0.num_rows && r1->Ok_0.cells() == r2->Ok_0.cells(),
{
    let wanted = names_view(convert.include_columns);
    let b1 = choose|base: Seq<Field>|
        base_fields_hold(base, data, convert, parse) && read_outcome(
            r1,
            data,
            parse,
            final_fields(base, convert),
            convert.limit,
            wanted,
        );
    let b2 = choose|base: Seq<Field>|
        base_fields_hold(base, data, convert, parse) && read_outcome(
            r2,
            data,
            parse,
            final_fields(base, convert),
            convert.limit,
            wanted,
        );
    assert(fields_alike(b1, b2)) by {
        match convert.schema {
            Some(s) => {},
            None => {
                let all = all_records(data, parse.delimiter);
                if all.len() > 0 {
                    assert forall|i: int| 0 <= i < b1.len() implies (#[trigger] b1[i]).name@
                        == b2[i].name@ && b1[i].dtype == b2[i].dtype && b1[i].nullable
                        == b2[i].nullable by {
                        assert(b2[i].dtype == b1[i].dtype);
                    }
                }
            },
        }
    }
    let f1 = final_fields(b1, convert);
    let f2 = final_fields(b2, convert);
    assert(fields_alike(f1, f2)) by {
        match convert.column_names {
            Some(names) => {
                assert(f1 =~= f2);
            },
            None => {},
        }
    }
    lemma_read_outcome_alike(r1, r2, data, parse, f1, f2, convert.limit, wanted);
}

/// With a row limit `L`, a successful read yields `min(L, data rows)` rows.
pub proof fn lemma_limit_rows(
    r: Result<Table, Error>,
    data: Seq<u8>,
    parse: CsvParseOptions,
    fields: Seq<Field>,
    limit: usize,
    wanted: Option<Seq<String>>,
)
    requires
        read_outcome(r, data, parse, fields, Some(limit), wanted),
        r is Ok,
    ensures
        ({
            let all = all_records(data, parse.delimiter);
            let total = all.len() - header_rows(all, parse.has_header);
            r->Ok_0.num_rows == if limit < total {
                limit as int
            } else {
                total
            }
        }),
{
}

/// Projection by name succeeds when every requested name is a field, and keeps exactly
/// the requested columns, in the requested order; with unique names, each is the
/// field of that name.
pub proof fn lemma_projection_order(fields: Seq<Field>, cols: Seq<String>)
    requires
        fields.len() <= usize::MAX,
        forall|k: int|
            0 <= k < cols.len() ==> exists|i: int|
                0 <= i < fields.len() && fields[i].name@ == (#[trigger] cols[k])@,
    ensures
        spec_projection(fields, Some(cols)) is Some,
        ({
            let idx = spec_projection(fields, Some(cols))->Some_0;
            let out = projected_fields(fields, idx);
            &&& idx.len() == cols.len()
            &&& out.len() == cols.len()
            &&& forall|k: int| 0 <= k < cols.len() ==> (#[trigger] out[k]).name@ == cols[k]@
            &&& names_unique(fields) ==> forall|k: int, i: int|
                0 <= k < cols.len() && 0 <= i < fields.len() && fields[i].name@ == cols[k]@
                    ==> #[trigger] idx[k] == i && #[trigger] fields[i].name@ == cols[k]@
        }),
{
    assert forall|k: int| 0 <= k < cols.len() implies position_of(fields, (#[trigger] cols[k])@)
        is Some by {
        let i = choose|i: int| 0 <= i < fields.len() && fields[i].name@ == cols[k]@;
        lemma_position_of_present(fields, cols[k]@, i);
    }
    let idx = spec_projection(fields, Some(cols))->Some_0;
    assert forall|k: int| 0 <= k < cols.len() implies (#[trigger] projected_fields(
        fields,
        idx,
    )[k]).name@ == cols[k]@ by {
        lemma_position_in_range(fields, cols[k]@);
        let p = position_of(fields, cols[k]@)->Some_0;
        assert(idx[k] == p as usize);
        assert(idx[k] as int == p);
        assert(projected_fields(fields, idx)[k] == fields[p]);
    }
    if names_unique(fields) {
        assert forall|k: int, i: int|
            0 <= k < cols.len() && 0 <= i < fields.len() && fields[i].name@ == cols[k]@ implies #[trigger] idx[k]
            == i && #[trigger] fields[i].name@ == cols[k]@ by {
            lemma_position_of_present(fields, cols[k]@, i);
            lemma_position_in_range(fields, cols[k]@);
        }
    }
}

proof fn lemma_all_null_count(cells: Seq<CellView>)
    requires
        forall|i: int| 0 <= i < cells.len() ==> #[trigger] cells[i] is Null,
    ensures
        count_nulls(cells) == cells.len(),
    decreases cells.len(),
{
    if cells.len() > 0 {
        let pre = cells.drop_last();
        assert forall|i: int| 0 <= i < pre.len() implies #[trigger] pre[i] is Null by {
            assert(pre[i] == cells[i]);
        }
        lemma_all_null_count(pre);
    }
}

/// A column whose declared type no cell of the read rows matches keeps every row and
/// holds only nulls.
pub proof fn lemma_incompatible_column_all_null(
    t: Table,
    rows: Seq<Seq<Seq<u8>>>,
    fields: Seq<Field>,
    idx: Seq<usize>,
    k: int,
)
    requires
        table_holds(t, rows, fields, idx),
        0 <= k < idx.len(),
        forall|r: int|
            0 <= r < rows.len() ==> spec_decode(
                fields[idx[k] as int].dtype,
                cell_of(#[trigger] rows[r], idx[k] as int),
            ) is Null,
    ensures
        t.num_rows == rows.len(),
        count_nulls(t.cells()[k]) == t.num_rows,
{
    let col = t.cells()[k];
    assert(col == decoded_column(rows, fields[idx[k] as int].dtype, idx[k] as int));
    assert forall|i: int| 0 <= i < col.len() implies #[trigger] col[i] is Null by {
        assert(col[i] == spec_decode(fields[idx[k] as int].dtype, cell_of(rows[i], idx[k] as int)));
    }
    lemma_all_null_count(col);
}

/// Input that holds only a header row reads as a table with no rows under the
/// projected fields.
pub proof fn lemma_header_only_reads_empty(
    r: Result<Table, Error>,
    data: Seq<u8>,
    parse: CsvParseOptions,
    fields: Seq<Field>,
    limit: Option<usize>,
    wanted: Option<Seq<String>>,
)
    requires
        read_outcome(r, data, parse, fields, limit, wanted),
        parse.has_header,
        all_records(data, parse.delimiter).len() == 1,
        spec_projection(fields, wanted) is Some,
    ensures
        r is Ok,
        r->Ok_0.num_rows == 0,
        r->Ok_0.schema.fields@ == projected_fields(fields, spec_projection(fields, wanted)->Some_0),
{
    let all = all_records(data, parse.delimiter);
    assert(rows_read(all, parse.has_header, limit) == 0);
    assert(consistent(all, 1));
}

/// Successive batches, each the records between two reader positions, concatenate to
/// the records between the first and the last position: how the records are cut into
/// batches does not change which records are read, or their order.
pub proof fn lemma_batches_concatenate(
    all: Seq<Seq<Seq<u8>>>,
    ks: Seq<int>,
    batches: Seq<Seq<Seq<Seq<u8>>>>,
)
    requires
        ks.len() == batches.len() + 1,
        forall|i: int| 0 <= i < ks.len() ==> 0 <= #[trigger] ks[i] <= all.len(),
        forall|i: int| 0 <= i < batches.len() ==> #[trigger] ks[i] <= ks[i + 1],
        forall|i: int|
            0 <= i < batches.len() ==> #[trigger] batches[i] == all.subrange(ks[i], ks[i + 1]),
    ensures
        ks[0] <= ks.last(),
        batches.flatten() == all.subrange(ks[0], ks.last()),
    decreases batches.len(),
{
    if batches.len() == 0 {
        assert(all.subrange(ks[0], ks.last()) =~= Seq::<Seq<Seq<u8>>>::empty());
    } else {
        let rest = batches.drop_first();
        let ks_rest = ks.drop_first();
        assert forall|i: int| 0 <= i < ks_rest.len() implies 0 <= #[trigger] ks_rest[i]
            <= all.len() by {
            assert(ks_rest[i] == ks[i + 1]);
        }
        assert forall|i: int| 0 <= i < rest.len() implies #[trigger] ks_rest[i] <= ks_rest[i
            + 1] by {
            assert(ks_rest[i] == ks[i + 1]);
            assert(ks_rest[i + 1] == ks[i + 2]);
            assert(ks[i + 1] <= ks[i + 2]);
        }
        assert forall|i: int| 0 <= i < rest.len() implies #[trigger] rest[i] == all.subrange(
            ks_rest[i],
            ks_rest[i + 1],
        ) by {
            assert(rest[i] == batches[i + 1]);
            assert(ks_rest[i] == ks[i + 1]);
            assert(ks_rest[i + 1] == ks[i + 2]);
        }
        lemma_batches_concatenate(all, ks_rest, rest);
        assert(ks[0] <= ks[1]);
        assert(batches.first() == all.subrange(ks[0], ks[1]));
        assert(ks_rest.last() == ks.last());
        assert(all.subrange(ks[0], ks[1]) + all.subrange(ks[1], ks.last()) =~= all.subrange(
            ks[0],
            ks.last(),
        ));
    }
}

} // verus!
