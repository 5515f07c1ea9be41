use vstd::prelude::*;

use crate::cell::{copy_bytes, CellView, Value};
use crate::decode::{decode_batch, decoded_column, lemma_decoded_column_concat, values_view};
use crate::error::Error;
use crate::infer::{infer_fields, spec_inferred_type, utf8_lossy, default_name_bytes};
use crate::options::{CsvConvertOptions, CsvParseOptions, CsvReadOptions};
use crate::records::{
    lemma_records_from_len,
    all_records, consistent, first_mismatch_at, records_view, RecordReader,
};
use crate::schema::{
    copy_fields, fields_to_projection_indices, indices_in_range, names_view, project_fields,
    projected_fields, rename_fields, renamed_fields, spec_projection, Field,
};
use crate::sizing::{observed, BatchPlanner};
use crate::table::{chunks_to_table, chunks_view, columns_view, concat_fragments, Table};

verus! {

/// Records taken as the header: the first one, when the input has a header and any
/// record at all.
pub open spec fn header_rows(all: Seq<Seq<Seq<u8>>>, has_header: bool) -> int {
    if has_header && all.len() > 0 {
        1
    } else {
        0
    }
}

/// Data rows a read yields: all of them, or `limit` if fewer.
pub open spec fn rows_read(all: Seq<Seq<Seq<u8>>>, has_header: bool, limit: Option<usize>) -> int {
    let available = all.len() - header_rows(all, has_header);
    match limit {
        Some(l) => if l < available {
            l as int
        } else {
            available
        },
        None => available,
    }
}

/// `t` holds `rows` decoded into the projected fields: column `k` is source column
/// `idx[k]` under that field's type.
pub open spec fn table_holds(
    t: Table,
    rows: Seq<Seq<Seq<u8>>>,
    fields: Seq<Field>,
    idx: Seq<usize>,
) -> bool {
    &&& t.wf()
    &&& t.schema.fields@ == projected_fields(fields, idx)
    &&& t.num_rows == rows.len()
    &&& forall|k: int|
        0 <= k < idx.len() ==> #[trigger] t.cells()[k] == decoded_column(
            rows,
            fields[idx[k] as int].dtype,
            idx[k] as int,
        )
}

/// Outcome of reading `data` under the final field list `fields`: an unknown projected
/// name is an error; else the read fails exactly when a record before the last one
/// read has a field count other than the first record's, and names the first such
/// record's count; else the table holds the first `rows_read` data rows.
pub open spec fn read_outcome(
    r: Result<Table, Error>,
    data: Seq<u8>,
    parse: CsvParseOptions,
    fields: Seq<Field>,
    limit: Option<usize>,
    wanted: Option<Seq<String>>,
) -> bool {
    let all = all_records(data, parse.delimiter);
    let h = header_rows(all, parse.has_header);
    let n = rows_read(all, parse.has_header, limit);
    match spec_projection(fields, wanted) {
        None => r is Err && r->Err_0 is ColumnNotFound,
        Some(idx) => match r {
            Ok(t) => consistent(all, h + n) && table_holds(t, all.subrange(h, h + n), fields, idx),
            Err(e) => !consistent(all, h + n) && exists|j: int|
                0 < j < h + n && first_mismatch_at(all, j) && e.is_field_count_mismatch(
                    all[0].len() as usize,
                    all[j].len() as usize,
                ),
        },
    }
}

proof fn lemma_push_batch(
    all: Seq<Seq<Seq<u8>>>,
    h: int,
    k0: int,
    m: int,
    old_cv: Seq<Seq<Seq<CellView>>>,
    cv: Seq<Seq<Seq<CellView>>>,
    batch: Seq<Seq<CellView>>,
    fields: Seq<Field>,
    idx: Seq<usize>,
)
    requires
        0 <= h <= k0 <= k0 + m <= all.len(),
        cv == old_cv.push(batch),
        forall|k: int|
            0 <= k < idx.len() ==> #[trigger] concat_fragments(old_cv, k) == decoded_column(
                all.subrange(h, k0),
                fields[idx[k] as int].dtype,
                idx[k] as int,
            ),
        forall|k: int|
            0 <= k < idx.len() ==> #[trigger] batch[k] == decoded_column(
                all.subrange(k0, k0 + m),
                fields[idx[k] as int].dtype,
                idx[k] as int,
            ),
    ensures
        forall|k: int|
            0 <= k < idx.len() ==> #[trigger] concat_fragments(cv, k) == decoded_column(
                all.subrange(h, k0 + m),
                fields[idx[k] as int].dtype,
                idx[k] as int,
            ),
{
    assert(all.subrange(h, k0) + all.subrange(k0, k0 + m) =~= all.subrange(h, k0 + m));
    assert(cv.drop_last() =~= old_cv);
    assert(cv.last() == batch);
    assert forall|k: int| 0 <= k < idx.len() implies #[trigger] concat_fragments(cv, k)
        == decoded_column(all.subrange(h, k0 + m), fields[idx[k] as int].dtype, idx[k] as int) by {
        assert(concat_fragments(cv, k) == concat_fragments(old_cv, k) + batch[k]);
        assert(concat_fragments(old_cv, k) == decoded_column(
            all.subrange(h, k0),
            fields[idx[k] as int].dtype,
            idx[k] as int,
        ));
        assert(batch[k] == decoded_column(
            all.subrange(k0, k0 + m),
            fields[idx[k] as int].dtype,
            idx[k] as int,
        ));
        lemma_decoded_column_concat(
            all.subrange(h, k0),
            all.subrange(k0, k0 + m),
            fields[idx[k] as int].dtype,
            idx[k] as int,
        );
    }
}

/// Column fragments of every batch so far hold the decoded rows `h..h + total`.
pub open spec fn chunks_hold(
    chunks: Seq<Vec<Vec<Value>>>,
    all: Seq<Seq<Seq<u8>>>,
    h: int,
    total: int,
    fields: Seq<Field>,
    idx: Seq<usize>,
) -> bool {
    &&& forall|b: int| 0 <= b < chunks.len() ==> (#[trigger] chunks[b])@.len() == idx.len()
    &&& forall|k: int|
        0 <= k < idx.len() ==> #[trigger] concat_fragments(chunks_view(chunks), k)
            == decoded_column(all.subrange(h, h + total), fields[idx[k] as int].dtype, idx[k] as int)
}

/// One batch of a batched read: asks the planner how many records to read, reads them,
/// and notes them in the planner. `None` once the limit is reached or the input is
/// exhausted; a record with the wrong field count is an error.
pub fn read_batch(reader: &mut RecordReader, planner: &mut BatchPlanner) -> (r: Result<
    Option<Vec<Vec<Vec<u8>>>>,
    Error,
>)
    requires
        old(reader).wf(),
        old(planner).wf(),
    ensures
        final(reader).spec_data() == old(reader).spec_data(),
        final(reader).spec_delimiter() == old(reader).spec_delimiter(),
        final(planner).limit == old(planner).limit,
        final(planner).chunk_size == old(planner).chunk_size,
        ({
            let all = old(reader).all();
            let k = old(reader).spec_taken() as int;
            let want = old(planner).spec_request() as int;
            let m = if want < all.len() - k {
                want
            } else {
                all.len() - k
            };
            &&& want <= old(planner).limit - old(planner).total
            &&& (want == 0 <==> old(planner).total >= old(planner).limit)
            &&& r is Ok <==> consistent(all, k + m)
            &&& r is Ok ==> final(reader).wf() && final(reader).spec_taken() == k + m
                && final(planner).wf()
            &&& r is Ok ==> (r->Ok_0 is None <==> m == 0)
            &&& r is Ok && m == 0 ==> *final(planner) == *old(planner)
            &&& r is Ok && m > 0 ==> ({
                let rows = r->Ok_0->Some_0;
                &&& records_view(rows@) == all.subrange(k, k + m)
                &&& final(planner).total == old(planner).total + m
                &&& final(planner).estimate == observed(
                    old(planner).estimate,
                    ((final(reader).spec_pos() - old(reader).spec_pos()) / m) as u64,
                )
            })
            &&& r is Err ==> exists|j: int|
                k <= j < k + m && first_mismatch_at(all, j) && r->Err_0.is_field_count_mismatch(
                    all[0].len() as usize,
                    all[j].len() as usize,
                )
        }),
{
    proof {
        reader.lemma_taken_bound();
    }
    let want = planner.next_request();
    if want == 0 {
        return Ok(None);
    }
    let before = reader.position();
    let rows = match reader.read_rows(want) {
        Ok(rows) => rows,
        Err(e) => {
            return Err(e);
        },
    };
    assert(records_view(rows@).len() == rows@.len());
    assert(rows@.len() <= want);
    if rows.len() == 0 {
        return Ok(None);
    }
    let consumed = reader.position() - before;
    planner.record(rows.len(), consumed);
    Ok(Some(rows))
}

/// Reads the remaining records in batches, each sized from the running record-size
/// estimate and `chunk_size`, and decodes the projected columns of each batch. Stops
/// after `lim` rows or at the end of the input.
pub fn read_into_column_chunks(
    reader: &mut RecordReader,
    fields: &Vec<Field>,
    indices: &Vec<usize>,
    lim: usize,
    chunk_size: usize,
    seed_mean: Option<u64>,
) -> (r: Result<(Vec<Vec<Vec<Value>>>, usize), Error>)
    requires
        old(reader).wf(),
        indices_in_range(indices@, fields@.len()),
        old(reader).all().len() <= usize::MAX,
    ensures
        final(reader).spec_data() == old(reader).spec_data(),
        final(reader).spec_delimiter() == old(reader).spec_delimiter(),
        ({
            let all = old(reader).all();
            let h = old(reader).spec_taken() as int;
            let n = if lim < all.len() - h {
                lim as int
            } else {
                all.len() - h
            };
            &&& r is Ok <==> consistent(all, h + n)
            &&& r is Ok ==> r->Ok_0.1 == n && chunks_hold(r->Ok_0.0@, all, h, n, fields@, indices@)
            &&& r is Ok ==> final(reader).wf() && final(reader).spec_taken() == h + n
            &&& r is Err ==> exists|j: int|
                h <= j < h + n && first_mismatch_at(all, j) && r->Err_0.is_field_count_mismatch(
                    all[0].len() as usize,
                    all[j].len() as usize,
                )
        }),
{
    let ghost all = reader.all();
    let ghost h = reader.spec_taken() as int;
    proof {
        reader.lemma_taken_bound();
    }
    let mut planner = BatchPlanner::new(chunk_size, Some(lim), seed_mean);
    let mut chunks: Vec<Vec<Vec<Value>>> = Vec::new();
    let mut total: usize = 0;
    proof {
        assert forall|k: int| 0 <= k < indices@.len() implies #[trigger] concat_fragments(
            chunks_view(chunks@),
            k,
        ) == decoded_column(
            all.subrange(h, h + total),
            fields@[indices@[k] as int].dtype,
            indices@[k] as int,
        ) by {
            assert(chunks_view(chunks@).len() == 0);
            assert(decoded_column(
                all.subrange(h, h + total),
                fields@[indices@[k] as int].dtype,
                indices@[k] as int,
            ) =~= Seq::empty());
        }
    }
    loop
        invariant
            reader.wf(),
            reader.all() == all,
            all == old(reader).all(),
            reader.spec_data() == old(reader).spec_data(),
            reader.spec_delimiter() == old(reader).spec_delimiter(),
            h == old(reader).spec_taken(),
            reader.spec_taken() == h + total,
            total <= lim,
            planner.wf(),
            planner.total == total,
            planner.limit == lim,
            h + total <= all.len(),
            all.len() <= usize::MAX,
            indices_in_range(indices@, fields@.len()),
            chunks_hold(chunks@, all, h, total as int, fields@, indices@),
        ensures
            reader.wf(),
            reader.spec_data() == old(reader).spec_data(),
            reader.spec_delimiter() == old(reader).spec_delimiter(),
            reader.spec_taken() == h + total,
            total == lim || h + total == all.len(),
            total <= lim,
            h + total <= all.len(),
            chunks_hold(chunks@, all, h, total as int, fields@, indices@),
        decreases lim - total,
    {
        let ghost k0 = h + total;
        let ghost want = planner.spec_request() as int;
        let rows = match read_batch(reader, &mut planner) {
            Ok(Some(rows)) => rows,
            Ok(None) => {
                break;
            },
            Err(e) => {
                proof {
                    let m = if want < all.len() - k0 {
                        want
                    } else {
                        all.len() - k0
                    };
                    let n = if lim < all.len() - h {
                        lim as int
                    } else {
                        all.len() - h
                    };
                    assert(k0 + m <= h + n);
                    let j = choose|j: int|
                        k0 <= j < k0 + m && first_mismatch_at(all, j) && e.is_field_count_mismatch(
                            all[0].len() as usize,
                            all[j].len() as usize,
                        );
                    assert(all[j].len() != all[0].len());
                    assert(!consistent(all, h + n));
                }
                return Err(e);
            },
        };
        let ghost m = rows@.len() as int;
        proof {
            assert(records_view(rows@).len() == m);
        }
        let frag = decode_batch(&rows, fields, indices);
        let ghost old_chunks = chunks_view(chunks@);
        let ghost old_raw = chunks@;
        chunks.push(frag);
        proof {
            assert(chunks_view(chunks@) =~= old_chunks.push(columns_view(frag@)));
            assert forall|k: int| 0 <= k < indices@.len() implies #[trigger] columns_view(frag@)[k]
                == decoded_column(
                all.subrange(k0, k0 + m),
                fields@[indices@[k] as int].dtype,
                indices@[k] as int,
            ) by {
                assert(columns_view(frag@)[k] == values_view(frag@[k]@));
            }
            lemma_push_batch(
                all,
                h,
                k0,
                m,
                old_chunks,
                chunks_view(chunks@),
                columns_view(frag@),
                fields@,
                indices@,
            );
            assert forall|b: int| 0 <= b < chunks@.len() implies (#[trigger] chunks@[b])@.len()
                == indices@.len() by {
                if b < chunks@.len() - 1 {
                    assert(chunks@[b] == old_raw[b]);
                }
            }
        }
        total = total + rows.len();
    }
    proof {
        reader.lemma_taken_bound();
    }
    Ok((chunks, total))
}

/// Reads `data` under the final field list: the header record, if any, is consumed
/// first; the data rows are read in batches, decoded column by column, and the
/// fragments assembled in batch order. The outcome does not depend on `chunk_size` or
/// `seed_mean`.
pub fn read_with_fields(
    data: Vec<u8>,
    parse: CsvParseOptions,
    fields: &Vec<Field>,
    limit: Option<usize>,
    include_columns: &Option<Vec<String>>,
    chunk_size: usize,
    seed_mean: Option<u64>,
) -> (r: Result<Table, Error>)
    ensures
        read_outcome(r, data@, parse, fields@, limit, names_view(*include_columns)),
{
    let indices = match fields_to_projection_indices(fields, include_columns) {
        Ok(i) => i,
        Err(e) => {
            return Err(e);
        },
    };
    let out_fields = project_fields(fields, &indices);
    let ghost data_v = data@;
    let data_len = data.len();
    assert(data_v.len() == data_len);
    let mut reader = RecordReader::new(data, parse.delimiter);
    let ghost all = reader.all();
    proof {
        lemma_records_from_len(data_v, parse.delimiter, 0);
    }
    if parse.has_header {
        match reader.read_rows(1) {
            Ok(_) => {},
            Err(e) => {
                proof {
                    assert(consistent(all, 1));
                    assert(consistent(all, 0));
                }
                return Err(e);
            },
        }
    }
    let ghost h = header_rows(all, parse.has_header);
    let ghost n = rows_read(all, parse.has_header, limit);
    assert(reader.spec_taken() == h);
    let lim: usize = match limit {
        Some(l) => l,
        None => usize::MAX,
    };
    let (chunks, total) = match read_into_column_chunks(
        &mut reader,
        fields,
        &indices,
        lim,
        chunk_size,
        seed_mean,
    ) {
        Ok(p) => p,
        Err(e) => {
            return Err(e);
        },
    };
    proof {
        assert(total == n);
        assert forall|k: int| 0 <= k < out_fields@.len() implies (#[trigger] concat_fragments(
            chunks_view(chunks@),
            k,
        )).len() == total by {
            assert(concat_fragments(chunks_view(chunks@), k) == decoded_column(
                all.subrange(h, h + total),
                fields@[indices@[k] as int].dtype,
                indices@[k] as int,
            ));
        }
    }
    let t = chunks_to_table(&chunks, &out_fields, total);
    proof {
        assert forall|k: int| 0 <= k < indices@.len() implies #[trigger] t.cells()[k]
            == decoded_column(
            all.subrange(h, h + n),
            fields@[indices@[k] as int].dtype,
            indices@[k] as int,
        ) by {
            assert(t.cells()[k] == concat_fragments(chunks_view(chunks@), k));
        }
    }
    Ok(t)
}

/// `f` is what inference makes of the records: one field per cell of the first record,
/// named by the header (else `column_1`, `column_2`, ...), typed from the data rows.
pub open spec fn inferred_fields_hold(f: Seq<Field>, all: Seq<Seq<Seq<u8>>>, has_header: bool) -> bool {
    if all.len() == 0 {
        f.len() == 0
    } else {
        let data = all.skip(if has_header {
            1int
        } else {
            0int
        });
        &&& f.len() == all[0].len()
        &&& forall|j: int|
            0 <= j < f.len() ==> {
                &&& (#[trigger] f[j]).dtype == spec_inferred_type(data, j)
                &&& f[j].nullable
                &&& has_header ==> f[j].name@ == utf8_lossy(all[0][j])
                &&& !has_header ==> f[j].name@ == utf8_lossy(default_name_bytes((j + 1) as nat))
            }
    }
}

/// `base` is the declared field list, or the inferred one when none is declared.
pub open spec fn base_fields_hold(
    base: Seq<Field>,
    data: Seq<u8>,
    convert: CsvConvertOptions,
    parse: CsvParseOptions,
) -> bool {
    match convert.schema {
        Some(s) => base == s.fields@,
        None => inferred_fields_hold(base, all_records(data, parse.delimiter), parse.has_header),
    }
}

/// Field list after the caller's positional renaming, if any.
pub open spec fn final_fields(base: Seq<Field>, convert: CsvConvertOptions) -> Seq<Field> {
    match convert.column_names {
        Some(names) => renamed_fields(base, names@),
        None => base,
    }
}

/// Convert options in effect: the given ones, or none of their settings.
pub open spec fn convert_or_default(o: Option<CsvConvertOptions>) -> CsvConvertOptions {
    match o {
        Some(c) => c,
        None => CsvConvertOptions {
            limit: None,
            include_columns: None,
            column_names: None,
            schema: None,
        },
    }
}

/// Parse options in effect: the given ones, or a header row and a comma.
pub open spec fn parse_or_default(o: Option<CsvParseOptions>) -> CsvParseOptions {
    match o {
        Some(p) => p,
        None => CsvParseOptions { has_header: true, delimiter: 44 },
    }
}

/// Reads delimited text into a table. The field list is the declared schema, or else
/// inferred from the records, renamed positionally by `column_names`; then the rows are
/// read as `read_with_fields` states, with the batch byte size from `read_options`.
pub fn read_csv(
    data: Vec<u8>,
    convert_options: Option<CsvConvertOptions>,
    parse_options: Option<CsvParseOptions>,
    read_options: Option<CsvReadOptions>,
) -> (r: Result<Table, Error>)
    ensures
        exists|base: Seq<Field>|
            base_fields_hold(
                base,
                data@,
                convert_or_default(convert_options),
                parse_or_default(parse_options),
            ) && read_outcome(
                r,
                data@,
                parse_or_default(parse_options),
                final_fields(base, convert_or_default(convert_options)),
                convert_or_default(convert_options).limit,
                names_view(convert_or_default(convert_options).include_columns),
            ),
{
    let ghost co = convert_options;
    let convert = match convert_options {
        Some(c) => c,
        None => CsvConvertOptions::default(),
    };
    let ghost po = parse_options;
    let parse = match parse_options {
        Some(p) => p,
        None => CsvParseOptions::default(),
    };
    proof {
        let c2 = convert_or_default(co);
        assert(convert.limit == c2.limit);
        assert(convert.schema == c2.schema);
        assert(convert.include_columns == c2.include_columns);
        assert(convert.column_names == c2.column_names);
        assert(convert == c2);
        assert(parse == parse_or_default(po));
    }
    let chunk_size = CsvReadOptions::resolve_chunk_size(read_options);
    let ghost data_v = data@;
    let (fields, seed_mean) = resolve_fields(&data, &convert, parse);
    let ghost fields_v = fields@;
    let r = read_with_fields(
        data,
        parse,
        &fields,
        convert.limit,
        &convert.include_columns,
        chunk_size,
        seed_mean,
    );
    proof {
        let base_v = choose|base: Seq<Field>|
            base_fields_hold(base, data_v, convert, parse) && fields_v == final_fields(base, convert);
        assert(base_fields_hold(base_v, data_v, convert, parse) && read_outcome(
            r,
            data_v,
            parse,
            final_fields(base_v, convert),
            convert.limit,
            names_view(convert.include_columns),
        ));
    }
    r
}

/// The final field list of a read: the declared schema, or else the fields inferred
/// from the records, renamed positionally by `column_names`. Also a seed for the mean
/// record size when the records were split to infer.
pub fn resolve_fields(data: &Vec<u8>, convert: &CsvConvertOptions, parse: CsvParseOptions) -> (r: (
    Vec<Field>,
    Option<u64>,
))
    ensures
        exists|base: Seq<Field>|
            base_fields_hold(base, data@, *convert, parse) && r.0@ == final_fields(base, *convert),
{
    let (base, seed_mean) = match &convert.schema {
        Some(s) => (copy_fields(&s.fields), None),
        None => {
            let copy = copy_bytes(data.as_slice());
            let mut splitter = RecordReader::new(copy, parse.delimiter);
            let rows = splitter.split_remaining();
            let fields = infer_fields(&rows, parse.has_header);
            let seed: Option<u64> = if rows.len() > 0 {
                Some((data.len() / rows.len()) as u64)
            } else {
                None
            };
            (fields, seed)
        },
    };
    let ghost base_v = base@;
    proof {
        assert(base_fields_hold(base_v, data@, *convert, parse));
    }
    let fields = match &convert.column_names {
        Some(names) => rename_fields(&base, names),
        None => base,
    };
    proof {
        assert(fields@ == final_fields(base_v, *convert));
    }
    (fields, seed_mean)
}

} // verus!
