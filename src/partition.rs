use std::sync::Arc;

use vstd::prelude::*;

use crate::cell::{CellView, Value};
use crate::decode::values_view;
use crate::error::Error;
use crate::expr::{copy_predicates, lemma_filter_concat, filter_table, filtered_cells, kept_rows, preds_resolve, Predicate};
use crate::options::{copy_names, CsvConvertOptions, CsvParseOptions, CsvReadOptions};
use crate::schema::{names_view, position_of, Schema};
use crate::stats::{stats_refute, stats_views, statistics_refute, union_all, TableStatistics};
use crate::table::{lemma_table_bytes_nonneg, table_bytes, Table};

verus! {

/// How the deferred files are to be read: a closed choice of formats.
#[derive(Debug)]
pub enum FormatParams {
    Parquet,
    Csv {
        parse_options: Option<CsvParseOptions>,
        read_options: Option<CsvReadOptions>,
        column_names: Option<Vec<String>>,
    },
}

impl FormatParams {
    /// The same choice with the same settings.
    pub open spec fn same(&self, o: &FormatParams) -> bool {
        match (self, o) {
            (FormatParams::Parquet, FormatParams::Parquet) => true,
            (
                FormatParams::Csv { parse_options: pa, read_options: ra, column_names: ca },
                FormatParams::Csv { parse_options: pb, read_options: rb, column_names: cb },
            ) => pa == pb && ra == rb && names_view(*ca) == names_view(*cb),
            _ => false,
        }
    }

    pub fn copy(&self) -> (r: FormatParams)
        ensures
            r.same(self),
    {
        match self {
            FormatParams::Parquet => FormatParams::Parquet,
            FormatParams::Csv { parse_options, read_options, column_names } => FormatParams::Csv {
                parse_options: *parse_options,
                read_options: *read_options,
                column_names: match column_names {
                    Some(v) => Some(copy_names(v)),
                    None => None,
                },
            },
        }
    }
}

/// The recorded intent to read: format, locations, predicates absorbed so far, row
/// limit and column selection.
#[derive(Debug)]
pub struct DeferredLoadingParams {
    pub format_params: FormatParams,
    pub urls: Vec<String>,
    pub multithreaded_io: bool,
    pub filters: Vec<Predicate>,
    pub limit: Option<usize>,
    pub columns: Option<Vec<String>>,
}

impl DeferredLoadingParams {
    /// The same plan, except that the predicates are `filters`.
    pub open spec fn same_but_filters(&self, o: &DeferredLoadingParams) -> bool {
        &&& self.format_params.same(&o.format_params)
        &&& self.urls@ == o.urls@
        &&& self.multithreaded_io == o.multithreaded_io
        &&& self.limit == o.limit
        &&& names_view(self.columns) == names_view(o.columns)
    }

    /// Conversion options for reading one of the plan's delimited-text files under
    /// `schema`: the plan's row limit, column selection and column names. `None` for
    /// another format.
    pub fn csv_convert_options(&self, schema: &Schema) -> (r: Option<CsvConvertOptions>)
        ensures
            r is Some <==> self.format_params is Csv,
            r is Some ==> ({
                let c = r->Some_0;
                &&& c.limit == self.limit
                &&& names_view(c.include_columns) == names_view(self.columns)
                &&& names_view(c.column_names) == names_view(self.format_params->Csv_column_names)
                &&& c.schema is Some
                &&& c.schema->Some_0.fields@ == schema.fields@
            }),
    {
        match &self.format_params {
            FormatParams::Parquet => None,
            FormatParams::Csv { column_names, .. } => {
                let names = match column_names {
                    Some(v) => Some(copy_names(v)),
                    None => None,
                };
                let columns = match &self.columns {
                    Some(v) => Some(copy_names(v)),
                    None => None,
                };
                Some(CsvConvertOptions::new_internal(self.limit, columns, names, Some(schema.copy())))
            },
        }
    }

    /// A copy of the plan with `preds` appended to its predicates.
    pub fn with_filters(&self, preds: &Vec<Predicate>) -> (r: DeferredLoadingParams)
        ensures
            r.same_but_filters(self),
            r.filters@ == self.filters@ + preds@,
    {
        let mut filters = copy_predicates(&self.filters);
        let extra = copy_predicates(preds);
        let mut i: usize = 0;
        let ghost base = filters@;
        while i < extra.len()
            invariant
                i <= extra@.len(),
                extra@ == preds@,
                filters@ == base + extra@.subrange(0, i as int),
            decreases extra@.len() - i,
        {
            filters.push(crate::expr::copy_predicate(&extra[i]));
            i = i + 1;
            assert(filters@ =~= base + extra@.subrange(0, i as int));
        }
        assert(extra@.subrange(0, extra@.len() as int) =~= extra@);
        DeferredLoadingParams {
            format_params: self.format_params.copy(),
            urls: copy_names(&self.urls),
            multithreaded_io: self.multithreaded_io,
            filters,
            limit: self.limit,
            columns: match &self.columns {
                Some(v) => Some(copy_names(v)),
                None => None,
            },
        }
    }
}

/// Load state: the deferred plan, or the tables it produced.
#[derive(Debug)]
pub enum TableState {
    Unloaded(DeferredLoadingParams),
    Loaded(Arc<Vec<Table>>),
}

/// `out` is `t` filtered by `preds`.
pub open spec fn table_filtered(t: Table, preds: Seq<Predicate>, out: Table) -> bool {
    let kept = kept_rows(t.schema.fields@, preds, t.cells(), t.num_rows as int);
    &&& preds_resolve(t.schema.fields@, preds)
    &&& out.wf()
    &&& out.schema.fields@ == t.schema.fields@
    &&& out.num_rows == kept.len()
    &&& out.cells() == filtered_cells(t.cells(), kept)
}

/// Every table of `outs` is the matching table of `ts` filtered by `preds`.
pub open spec fn tables_filtered(ts: Seq<Table>, preds: Seq<Predicate>, outs: Seq<Table>) -> bool {
    &&& outs.len() == ts.len()
    &&& forall|i: int| 0 <= i < ts.len() ==> table_filtered(#[trigger] ts[i], preds, outs[i])
}

/// Every predicate names a field of every table.
pub open spec fn resolve_in_all(ts: Seq<Table>, preds: Seq<Predicate>) -> bool {
    forall|i: int| 0 <= i < ts.len() ==> preds_resolve(#[trigger] ts[i].schema.fields@, preds)
}

pub open spec fn all_wf(ts: Seq<Table>) -> bool {
    forall|i: int| 0 <= i < ts.len() ==> (#[trigger] ts[i]).wf()
}

/// One materialization step: from load state `before`, given what the reader returned
/// (consulted only when still deferred), to state `after` and result `r`. Loaded
/// tables are handed out as they are; a deferred plan installs its read tables,
/// filtered by its predicates; any failure leaves the state as it was.
pub open spec fn materialize_step(
    before: TableState,
    read: Result<Vec<Table>, Error>,
    after: TableState,
    r: Result<Arc<Vec<Table>>, Error>,
) -> bool {
    match before {
        TableState::Loaded(ts) => after == before && r == Ok::<Arc<Vec<Table>>, Error>(ts),
        TableState::Unloaded(params) => match read {
            Err(e) => after == before && r == Err::<Arc<Vec<Table>>, Error>(e),
            Ok(ts) => match r {
                Ok(out) => after == TableState::Loaded(out) && (if params.filters@.len() == 0 {
                    out@ == ts@
                } else {
                    tables_filtered(ts@, params.filters@, out@)
                }),
                Err(e) => after == before && params.filters@.len() > 0 && e is ColumnNotFound
                    && !resolve_in_all(ts@, params.filters@),
            },
        },
    }
}

/// Rows over a sequence of tables.
pub open spec fn total_rows(ts: Seq<Table>) -> int
    decreases ts.len(),
{
    if ts.len() == 0 {
        0
    } else {
        total_rows(ts.drop_last()) + ts.last().num_rows
    }
}

/// Bytes of the cells of every table.
pub open spec fn tables_bytes(ts: Seq<Table>) -> int
    decreases ts.len(),
{
    if ts.len() == 0 {
        0
    } else {
        tables_bytes(ts.drop_last()) + table_bytes(ts.last().cells())
    }
}

proof fn lemma_tables_bytes_prefix(ts: Seq<Table>, i: int)
    requires
        0 <= i <= ts.len(),
    ensures
        tables_bytes(ts.subrange(0, i)) <= tables_bytes(ts),
    decreases ts.len() - i,
{
    if i < ts.len() {
        lemma_tables_bytes_prefix(ts, i + 1);
        assert(ts.subrange(0, i + 1).drop_last() =~= ts.subrange(0, i));
        lemma_table_bytes_nonneg(ts[i].cells());
    } else {
        assert(ts.subrange(0, i) =~= ts);
    }
}

proof fn lemma_tables_bytes_nonneg(ts: Seq<Table>)
    ensures
        tables_bytes(ts) >= 0,
    decreases ts.len(),
{
    if ts.len() > 0 {
        lemma_tables_bytes_nonneg(ts.drop_last());
        lemma_table_bytes_nonneg(ts.last().cells());
    }
}

/// The column named `name` of each table, concatenated in table order; `None` when a
/// table lacks it.
pub open spec fn column_across(ts: Seq<Table>, name: Seq<char>) -> Option<Seq<CellView>>
    decreases ts.len(),
{
    if ts.len() == 0 {
        Some(Seq::empty())
    } else {
        match (column_across(ts.drop_last(), name), position_of(ts.last().schema.fields@, name)) {
            (Some(pre), Some(c)) => Some(pre + ts.last().cells()[c]),
            _ => None,
        }
    }
}

/// A lazily materialized partition: a schema, a load state and optional statistics.
#[derive(Debug)]
pub struct MicroPartition {
    schema: Schema,
    state: TableState,
    statistics: Option<TableStatistics>,
}

/// Filters every table by `preds`.
fn filter_all(tables: &Vec<Table>, preds: &Vec<Predicate>) -> (r: Result<Vec<Table>, Error>)
    requires
        all_wf(tables@),
    ensures
        r is Ok <==> resolve_in_all(tables@, preds@),
        r is Ok ==> tables_filtered(tables@, preds@, r->Ok_0@),
        r is Err ==> r->Err_0 is ColumnNotFound,
{
    let mut out: Vec<Table> = Vec::new();
    let mut i: usize = 0;
    while i < tables.len()
        invariant
            all_wf(tables@),
            i <= tables@.len(),
            out@.len() == i,
            forall|q: int| 0 <= q < i ==> table_filtered(#[trigger] tables@[q], preds@, out@[q]),
        decreases tables@.len() - i,
    {
        let t = &tables[i];
        assert(tables@[i as int].wf());
        match filter_table(t, preds) {
            Ok(f) => {
                out.push(f);
            },
            Err(e) => {
                assert(!preds_resolve(tables@[i as int].schema.fields@, preds@));
                return Err(e);
            },
        }
        i = i + 1;
    }
    Ok(out)
}

impl MicroPartition {
    pub closed spec fn spec_schema(&self) -> Schema {
        self.schema
    }

    pub fn schema(&self) -> (r: &Schema)
        ensures
            *r == self.spec_schema(),
    {
        &self.schema
    }

    pub closed spec fn spec_state(&self) -> TableState {
        self.state
    }

    pub closed spec fn spec_statistics(&self) -> Option<TableStatistics> {
        self.statistics
    }

    /// Loaded tables are well formed.
    pub closed spec fn wf(&self) -> bool {
        match self.state {
            TableState::Loaded(ts) => all_wf(ts@),
            TableState::Unloaded(_) => true,
        }
    }

    pub fn new(schema: Schema, state: TableState, statistics: Option<TableStatistics>) -> (r: Self)
        requires
            match state {
                TableState::Loaded(ts) => all_wf(ts@),
                TableState::Unloaded(_) => true,
            },
        ensures
            r.wf(),
            r.spec_schema() == schema,
            r.spec_state() == state,
            r.spec_statistics() == statistics,
    {
        MicroPartition { schema, state, statistics }
    }

    /// A loaded partition with no tables, under `schema` or else no fields.
    pub fn empty(schema: Option<Schema>) -> (r: Self)
        ensures
            r.wf(),
            r.spec_state() is Loaded && r.spec_state()->Loaded_0@.len() == 0,
            r.spec_statistics() is None,
            schema is Some ==> r.spec_schema() == schema->Some_0,
            schema is None ==> r.spec_schema().fields@.len() == 0,
    {
        let s = match schema {
            Some(s) => s,
            None => Schema::empty(),
        };
        let v: Vec<Table> = Vec::new();
        MicroPartition { schema: s, state: TableState::Loaded(Arc::new(v)), statistics: None }
    }

    /// A loaded partition over `tables`, under the first table's fields.
    pub fn from_tables(tables: Vec<Table>) -> (r: Self)
        requires
            all_wf(tables@),
        ensures
            r.wf(),
            r.spec_state() is Loaded && r.spec_state()->Loaded_0@ == tables@,
            r.spec_statistics() is None,
            tables@.len() > 0 ==> r.spec_schema().fields@ == tables@[0].schema.fields@,
            tables@.len() == 0 ==> r.spec_schema().fields@.len() == 0,
    {
        let schema = if tables.len() > 0 {
            tables[0].schema.copy()
        } else {
            Schema::empty()
        };
        MicroPartition { schema, state: TableState::Loaded(Arc::new(tables)), statistics: None }
    }

    /// A deferred partition reading delimited text from `urls` under a known schema.
    pub fn read_csv_deferred(
        urls: Vec<String>,
        parse_options: Option<CsvParseOptions>,
        read_options: Option<CsvReadOptions>,
        schema: Schema,
        column_names: Option<Vec<String>>,
        multithreaded_io: bool,
    ) -> (r: Self)
        ensures
            r.wf(),
            r.spec_schema() == schema,
            r.spec_statistics() is None,
            r.spec_state() is Unloaded,
            ({
                let p = r.spec_state()->Unloaded_0;
                &&& p.urls == urls
                &&& p.filters@.len() == 0
                &&& p.limit is None
                &&& p.columns is None
                &&& p.multithreaded_io == multithreaded_io
                &&& p.format_params == (FormatParams::Csv {
                    parse_options,
                    read_options,
                    column_names,
                })
            }),
    {
        let params = DeferredLoadingParams {
            format_params: FormatParams::Csv { parse_options, read_options, column_names },
            urls,
            multithreaded_io,
            filters: Vec::new(),
            limit: None,
            columns: None,
        };
        MicroPartition { schema, state: TableState::Unloaded(params), statistics: None }
    }

    /// A deferred partition reading Parquet files from `urls` under a known schema, with
    /// the statistics of their row groups folded into one.
    pub fn read_parquet_deferred(
        urls: Vec<String>,
        schema: Schema,
        row_group_stats: &Vec<TableStatistics>,
        multithreaded_io: bool,
    ) -> (r: Self)
        ensures
            r.wf(),
            r.spec_schema() == schema,
            r.spec_statistics() is Some <==> union_all(stats_views(row_group_stats@)) is Some,
            r.spec_statistics() is Some ==> r.spec_statistics()->Some_0.columns@ == union_all(
                stats_views(row_group_stats@),
            )->Some_0,
            r.spec_state() is Unloaded,
            ({
                let p = r.spec_state()->Unloaded_0;
                &&& p.urls == urls
                &&& p.filters@.len() == 0
                &&& p.limit is None
                &&& p.columns is None
                &&& p.multithreaded_io == multithreaded_io
                &&& p.format_params is Parquet
            }),
    {
        let params = DeferredLoadingParams {
            format_params: FormatParams::Parquet,
            urls,
            multithreaded_io,
            filters: Vec::new(),
            limit: None,
            columns: None,
        };
        let statistics = TableStatistics::union_of(row_group_stats);
        MicroPartition { schema, state: TableState::Unloaded(params), statistics }
    }

    /// Whether the tables are in memory.
    pub fn is_loaded(&self) -> (r: bool)
        ensures
            r == (self.spec_state() is Loaded),
    {
        match &self.state {
            TableState::Loaded(_) => true,
            TableState::Unloaded(_) => false,
        }
    }

    /// The deferred plan, while there is one.
    pub fn deferred_params(&self) -> (r: Option<&DeferredLoadingParams>)
        ensures
            self.spec_state() is Unloaded <==> r is Some,
            r is Some ==> *r->Some_0 == self.spec_state()->Unloaded_0,
    {
        match &self.state {
            TableState::Loaded(_) => None,
            TableState::Unloaded(p) => Some(p),
        }
    }

    /// Names of the schema's fields.
    pub fn column_names(&self) -> (r: Vec<String>)
        ensures
            r@.len() == self.spec_schema().fields@.len(),
            forall|i: int| 0 <= i < r@.len() ==> r@[i] == self.spec_schema().fields@[i].name,
    {
        self.schema.column_names()
    }

    /// Applies predicates. No predicates, or statistics that refute them, give an
    /// empty loaded partition without consulting the load state. Otherwise a deferred
    /// plan absorbs the predicates, and loaded tables are filtered now. The schema and
    /// statistics carry over.
    pub fn filter(&self, predicate: &Vec<Predicate>) -> (r: Result<MicroPartition, Error>)
        requires
            self.wf(),
        ensures
            predicate@.len() == 0 ==> r is Ok && r->Ok_0.spec_state() is Loaded
                && r->Ok_0.spec_state()->Loaded_0@.len() == 0 && r->Ok_0.spec_statistics() is None,
            predicate@.len() > 0 && self.spec_statistics() is Some && stats_refute(
                self.spec_schema().fields@,
                predicate@,
                self.spec_statistics()->Some_0.columns@,
            ) ==> r is Ok && r->Ok_0.spec_state() is Loaded
                && r->Ok_0.spec_state()->Loaded_0@.len() == 0 && r->Ok_0.spec_statistics() is None,
            r is Ok ==> r->Ok_0.wf() && r->Ok_0.spec_schema().fields@ == self.spec_schema().fields@,
            ({
                let pruned = predicate@.len() == 0 || (self.spec_statistics() is Some
                    && stats_refute(
                    self.spec_schema().fields@,
                    predicate@,
                    self.spec_statistics()->Some_0.columns@,
                ));
                !pruned ==> match self.spec_state() {
                    TableState::Unloaded(p) => r is Ok && r->Ok_0.spec_state() is Unloaded && ({
                        let q = r->Ok_0.spec_state()->Unloaded_0;
                        q.same_but_filters(&p) && q.filters@ == p.filters@ + predicate@
                    }),
                    TableState::Loaded(ts) => (r is Ok <==> resolve_in_all(ts@, predicate@)) && (r is Ok
                        ==> r->Ok_0.spec_state() is Loaded
                        && tables_filtered(ts@, predicate@, r->Ok_0.spec_state()->Loaded_0@))
                        && (r is Err ==> r->Err_0 is ColumnNotFound),
                } && (r is Ok ==> match (self.spec_statistics(), r->Ok_0.spec_statistics()) {
                    (Some(a), Some(b)) => a.columns@ == b.columns@,
                    (None, None) => true,
                    _ => false,
                })
            }),
    {
        if predicate.len() == 0 {
            let v: Vec<Table> = Vec::new();
            return Ok(
                MicroPartition {
                    schema: self.schema.copy(),
                    state: TableState::Loaded(Arc::new(v)),
                    statistics: None,
                },
            );
        }
        if let Some(stats) = &self.statistics {
            if statistics_refute(&self.schema.fields, predicate, stats) {
                let v: Vec<Table> = Vec::new();
                return Ok(
                    MicroPartition {
                        schema: self.schema.copy(),
                        state: TableState::Loaded(Arc::new(v)),
                        statistics: None,
                    },
                );
            }
        }
        let new_state = match &self.state {
            TableState::Unloaded(params) => TableState::Unloaded(params.with_filters(predicate)),
            TableState::Loaded(tables) => {
                let filtered = match filter_all(tables, predicate) {
                    Ok(f) => f,
                    Err(e) => {
                        return Err(e);
                    },
                };
                proof {
                    assert forall|i: int| 0 <= i < filtered@.len() implies (
                    #[trigger] filtered@[i]).wf() by {
                        assert(table_filtered(tables@[i], predicate@, filtered@[i]));
                    }
                }
                TableState::Loaded(Arc::new(filtered))
            },
        };
        let statistics = match &self.statistics {
            Some(s) => Some(s.copy()),
            None => None,
        };
        Ok(MicroPartition { schema: self.schema.copy(), state: new_state, statistics })
    }

    /// Forced materialization. Loaded tables are handed out as they are and `read` is
    /// ignored; a deferred plan installs `read` (what the reader returned for it),
    /// filtered by the plan's predicates. A failed read or filter leaves the partition
    /// deferred.
    pub fn tables_or_read(&mut self, read: Result<Vec<Table>, Error>) -> (r: Result<
        Arc<Vec<Table>>,
        Error,
    >)
        requires
            old(self).wf(),
            read is Ok ==> all_wf(read->Ok_0@),
        ensures
            final(self).wf(),
            final(self).spec_schema() == old(self).spec_schema(),
            final(self).spec_statistics() == old(self).spec_statistics(),
            materialize_step(old(self).spec_state(), read, final(self).spec_state(), r),
    {
        let filtered = match &self.state {
            TableState::Loaded(tables) => {
                return Ok(tables.clone());
            },
            TableState::Unloaded(params) => match read {
                Err(e) => {
                    return Err(e);
                },
                Ok(tables) => {
                    if params.filters.len() == 0 {
                        tables
                    } else {
                        match filter_all(&tables, &params.filters) {
                            Ok(f) => {
                                proof {
                                    assert forall|i: int| 0 <= i < f@.len() implies (
                                    #[trigger] f@[i]).wf() by {
                                        assert(table_filtered(tables@[i], params.filters@, f@[i]));
                                    }
                                }
                                f
                            },
                            Err(e) => {
                                return Err(e);
                            },
                        }
                    }
                },
            },
        };
        let handle = Arc::new(filtered);
        self.state = TableState::Loaded(handle.clone());
        Ok(handle)
    }

    /// Rows held, once loaded; `None` while deferred or past `usize::MAX`.
    pub fn len(&self) -> (r: Option<usize>)
        ensures
            self.spec_state() is Unloaded ==> r is None,
            self.spec_state() is Loaded ==> {
                let n = total_rows(self.spec_state()->Loaded_0@);
                &&& r is Some <==> n <= usize::MAX
                &&& r is Some ==> r->Some_0 == n
            },
    {
        let tables = match &self.state {
            TableState::Loaded(t) => t,
            TableState::Unloaded(_) => {
                return None;
            },
        };
        let mut n: usize = 0;
        let mut i: usize = 0;
        while i < tables.len()
            invariant
                self.spec_state() is Loaded,
                self.spec_state()->Loaded_0@ == tables@,
                i <= tables@.len(),
                n == total_rows(tables@.subrange(0, i as int)),
            decreases tables@.len() - i,
        {
            proof {
                assert(tables@.subrange(0, i + 1).drop_last() =~= tables@.subrange(0, i as int));
            }
            let rows = tables[i].num_rows;
            proof {
                assert(tables@.subrange(0, i + 1).last() == tables@[i as int]);
                assert(total_rows(tables@.subrange(0, i + 1)) == n + rows);
            }
            if n > usize::MAX - rows {
                proof {
                    lemma_total_rows_grows(tables@, i + 1);
                    assert(total_rows(tables@) > usize::MAX);
                }
                return None;
            }
            n = n + rows;
            i = i + 1;
        }
        proof {
            assert(tables@.subrange(0, tables@.len() as int) =~= tables@);
        }
        Some(n)
    }

    /// Bytes the loaded cells occupy; `None` while deferred or past `usize::MAX`.
    pub fn size_bytes(&self) -> (r: Option<usize>)
        ensures
            self.spec_state() is Unloaded ==> r is None,
            self.spec_state() is Loaded ==> {
                let n = tables_bytes(self.spec_state()->Loaded_0@);
                &&& r is Some <==> n <= usize::MAX
                &&& r is Some ==> r->Some_0 == n
            },
    {
        let tables = match &self.state {
            TableState::Loaded(t) => t,
            TableState::Unloaded(_) => {
                return None;
            },
        };
        let mut n: usize = 0;
        let mut i: usize = 0;
        while i < tables.len()
            invariant
                self.spec_state() is Loaded,
                self.spec_state()->Loaded_0@ == tables@,
                i <= tables@.len(),
                n == tables_bytes(tables@.subrange(0, i as int)),
            decreases tables@.len() - i,
        {
            proof {
                assert(tables@.subrange(0, i + 1).drop_last() =~= tables@.subrange(0, i as int));
                assert(tables@.subrange(0, i + 1).last() == tables@[i as int]);
            }
            let b = match tables[i].size_bytes() {
                Some(b) => b,
                None => {
                    proof {
                        lemma_tables_bytes_prefix(tables@, i + 1);
                        lemma_tables_bytes_nonneg(tables@.subrange(0, i as int));
                    }
                    return None;
                },
            };
            if n > usize::MAX - b {
                proof {
                    lemma_tables_bytes_prefix(tables@, i + 1);
                }
                return None;
            }
            n = n + b;
            i = i + 1;
        }
        proof {
            assert(tables@.subrange(0, tables@.len() as int) =~= tables@);
        }
        Some(n)
    }

    /// The column named `name` across the loaded tables, in table order; `None` while
    /// deferred or when a table lacks the column.
    pub fn get_column(&self, name: &String) -> (r: Option<Vec<Value>>)
        requires
            self.wf(),
        ensures
            self.spec_state() is Unloaded ==> r is None,
            self.spec_state() is Loaded ==> {
                let c = column_across(self.spec_state()->Loaded_0@, name@);
                &&& r is Some <==> c is Some
                &&& r is Some ==> values_view(r->Some_0@) == c->Some_0
            },
    {
        let tables = match &self.state {
            TableState::Loaded(t) => t,
            TableState::Unloaded(_) => {
                return None;
            },
        };
        let ghost ts = tables@;
        let mut out: Vec<Value> = Vec::new();
        let mut i: usize = 0;
        proof {
            assert(ts.subrange(0, 0) =~= Seq::<Table>::empty());
            assert(values_view(out@) =~= Seq::<CellView>::empty());
        }
        while i < tables.len()
            invariant
                ts == tables@,
                self.spec_state() is Loaded,
                self.spec_state()->Loaded_0@ == ts,
                all_wf(ts),
                i <= ts.len(),
                column_across(ts.subrange(0, i as int), name@) is Some,
                values_view(out@) == column_across(ts.subrange(0, i as int), name@)->Some_0,
            decreases ts.len() - i,
        {
            let t = &tables[i];
            proof {
                assert(ts.subrange(0, i + 1).drop_last() =~= ts.subrange(0, i as int));
                assert(ts.subrange(0, i + 1).last() == ts[i as int]);
                assert(ts[i as int].wf());
            }
            match t.schema.index_of(name) {
                None => {
                    proof {
                        assert(column_across(ts.subrange(0, i + 1), name@) is None);
                        lemma_column_across_missing(ts, name@, i + 1);
                    }
                    return None;
                },
                Some(c) => {
                    proof {
                        crate::schema::lemma_position_in_range(t.schema.fields@, name@);
                    }
                    let col = &t.columns[c];
                    let mut k: usize = 0;
                    let ghost before = values_view(out@);
                    while k < col.len()
                        invariant
                            k <= col@.len(),
                            values_view(out@) == before + values_view(col@).subrange(0, k as int),
                        decreases col@.len() - k,
                    {
                        let v = col[k].copy();
                        let ghost o = values_view(out@);
                        out.push(v);
                        assert(values_view(out@) =~= o.push(v@));
                        k = k + 1;
                        assert(values_view(out@) =~= before + values_view(col@).subrange(
                            0,
                            k as int,
                        ));
                    }
                    proof {
                        assert(values_view(col@).subrange(0, col@.len() as int) =~= values_view(
                            col@,
                        ));
                        assert(t.cells()[c as int] == values_view(col@));
                    }
                },
            }
            i = i + 1;
        }
        proof {
            assert(ts.subrange(0, ts.len() as int) =~= ts);
        }
        Some(out)
    }

    /// The loaded tables, if any.
    pub fn cached_tables(&self) -> (r: Option<Arc<Vec<Table>>>)
        ensures
            self.spec_state() is Loaded <==> r is Some,
            r is Some ==> r->Some_0 == self.spec_state()->Loaded_0,
    {
        match &self.state {
            TableState::Loaded(t) => Some(t.clone()),
            TableState::Unloaded(_) => None,
        }
    }
}

proof fn lemma_total_rows_grows(ts: Seq<Table>, i: int)
    requires
        0 <= i <= ts.len(),
    ensures
        total_rows(ts.subrange(0, i)) <= total_rows(ts),
    decreases ts.len() - i,
{
    if i < ts.len() {
        lemma_total_rows_grows(ts, i + 1);
        assert(ts.subrange(0, i + 1).drop_last() =~= ts.subrange(0, i));
        assert(total_rows(ts.subrange(0, i + 1)) == total_rows(ts.subrange(0, i)) + ts[i].num_rows);
    } else {
        assert(ts.subrange(0, i) =~= ts);
    }
}

proof fn lemma_column_across_missing(ts: Seq<Table>, name: Seq<char>, i: int)
    requires
        0 <= i <= ts.len(),
        column_across(ts.subrange(0, i), name) is None,
    ensures
        column_across(ts, name) is None,
    decreases ts.len() - i,
{
    if i < ts.len() {
        assert(ts.subrange(0, i + 1).drop_last() =~= ts.subrange(0, i));
        assert(column_across(ts.subrange(0, i + 1), name) is None);
        lemma_column_across_missing(ts, name, i + 1);
    } else {
        assert(ts.subrange(0, i) =~= ts);
    }
}

/// Filtering a table by `a ++ b` gives what filtering by `a` and then by `b` gives.
pub proof fn lemma_table_filter_concat(
    t: Table,
    a: Seq<Predicate>,
    b: Seq<Predicate>,
    once: Table,
    mid: Table,
    twice: Table,
)
    requires
        t.wf(),
        table_filtered(t, a + b, once),
        table_filtered(t, a, mid),
        table_filtered(mid, b, twice),
    ensures
        once.schema.fields@ == twice.schema.fields@,
        once.num_rows == twice.num_rows,
        once.cells() == twice.cells(),
{
    lemma_filter_concat(t.schema.fields@, a, b, t.cells(), t.num_rows as int);
}

/// Absorbing predicates into a deferred plan and then materializing gives, table by
/// table, what materializing the plan and then filtering the loaded tables gives.
pub proof fn lemma_absorb_then_read(
    ts: Seq<Table>,
    plan_filters: Seq<Predicate>,
    preds: Seq<Predicate>,
    absorbed: Seq<Table>,
    loaded: Seq<Table>,
    filtered: Seq<Table>,
)
    requires
        all_wf(ts),
        tables_filtered(ts, plan_filters + preds, absorbed),
        tables_filtered(ts, plan_filters, loaded),
        tables_filtered(loaded, preds, filtered),
    ensures
        absorbed.len() == filtered.len(),
        forall|i: int|
            0 <= i < absorbed.len() ==> (#[trigger] absorbed[i]).schema.fields@
                == filtered[i].schema.fields@ && absorbed[i].num_rows == filtered[i].num_rows
                && absorbed[i].cells() == filtered[i].cells(),
{
    assert forall|i: int| 0 <= i < absorbed.len() implies (#[trigger] absorbed[i]).schema.fields@
        == filtered[i].schema.fields@ && absorbed[i].num_rows == filtered[i].num_rows
        && absorbed[i].cells() == filtered[i].cells() by {
        assert(table_filtered(ts[i], plan_filters + preds, absorbed[i]));
        assert(table_filtered(ts[i], plan_filters, loaded[i]));
        assert(table_filtered(loaded[i], preds, filtered[i]));
        lemma_table_filter_concat(ts[i], plan_filters, preds, absorbed[i], loaded[i], filtered[i]);
    }
}

/// Materialization happens at most once: after a step that succeeds, a further step
/// hands out the same tables, whatever the reader would return, and changes nothing.
pub proof fn lemma_materialize_once(
    s0: TableState,
    read1: Result<Vec<Table>, Error>,
    s1: TableState,
    ra: Result<Arc<Vec<Table>>, Error>,
    read2: Result<Vec<Table>, Error>,
    s2: TableState,
    rb: Result<Arc<Vec<Table>>, Error>,
)
    requires
        materialize_step(s0, read1, s1, ra),
        ra is Ok,
        materialize_step(s1, read2, s2, rb),
    ensures
        rb == ra,
        s2 == s1,
        s1 is Loaded,
{
}

} // verus!
