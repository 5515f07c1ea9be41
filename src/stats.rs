use vstd::prelude::*;

use crate::cell::CellView;
use crate::expr::{cell_passes, row_passes, CmpOp, Predicate};
use crate::schema::{index_of_name, lemma_position_in_range, position_of, Field};

verus! {

/// Smallest and largest integer a column holds.
#[derive(Clone, Copy, Debug, PartialEq, Eq, Structural)]
pub struct ColumnRange {
    pub min: i64,
    pub max: i64,
}

/// Per-field value ranges, one entry per field of the schema; `None` where unknown.
#[derive(Clone, Debug, PartialEq, Eq)]
pub struct TableStatistics {
    pub columns: Vec<Option<ColumnRange>>,
}

impl TableStatistics {
    /// Statistics covering both parts; `None` when their widths differ.
    pub fn union(&self, other: &TableStatistics) -> (r: Option<TableStatistics>)
        ensures
            r is Some <==> self.columns@.len() == other.columns@.len(),
            r is Some ==> r->Some_0.columns@ == union_ranges(self.columns@, other.columns@),
    {
        if self.columns.len() != other.columns.len() {
            return None;
        }
        let mut out: Vec<Option<ColumnRange>> = Vec::new();
        let mut c: usize = 0;
        while c < self.columns.len()
            invariant
                self.columns@.len() == other.columns@.len(),
                c <= self.columns@.len(),
                out@ == union_ranges(self.columns@, other.columns@).subrange(0, c as int),
            decreases self.columns@.len() - c,
        {
            let u = match (self.columns[c], other.columns[c]) {
                (Some(x), Some(y)) => Some(
                    ColumnRange {
                        min: if x.min <= y.min {
                            x.min
                        } else {
                            y.min
                        },
                        max: if x.max >= y.max {
                            x.max
                        } else {
                            y.max
                        },
                    },
                ),
                _ => None,
            };
            out.push(u);
            c = c + 1;
            assert(out@ =~= union_ranges(self.columns@, other.columns@).subrange(0, c as int));
        }
        assert(out@ =~= union_ranges(self.columns@, other.columns@));
        Some(TableStatistics { columns: out })
    }

    /// Folds the statistics of several parts (row groups, files) into one, in order.
    pub fn union_of(parts: &Vec<TableStatistics>) -> (r: Option<TableStatistics>)
        ensures
            r is Some <==> union_all(stats_views(parts@)) is Some,
            r is Some ==> r->Some_0.columns@ == union_all(stats_views(parts@))->Some_0,
    {
        if parts.len() == 0 {
            return None;
        }
        let mut acc = parts[0].copy();
        let ghost views = stats_views(parts@);
        proof {
            assert(views.subrange(0, 1).drop_last() =~= Seq::<Seq<Option<ColumnRange>>>::empty());
        }
        let mut i: usize = 1;
        while i < parts.len()
            invariant
                views == stats_views(parts@),
                1 <= i <= parts@.len(),
                union_all(views.subrange(0, i as int)) == Some(acc.columns@),
            decreases parts@.len() - i,
        {
            proof {
                assert(views.subrange(0, i + 1).drop_last() =~= views.subrange(0, i as int));
                assert(views.subrange(0, i + 1).last() == parts@[i as int].columns@);
            }
            match acc.union(&parts[i]) {
                Some(u) => {
                    acc = u;
                },
                None => {
                    proof {
                        lemma_union_all_stays_none(views, i + 1);
                    }
                    return None;
                },
            }
            i = i + 1;
        }
        proof {
            assert(views.subrange(0, parts@.len() as int) =~= views);
        }
        Some(acc)
    }

    pub fn copy(&self) -> (r: TableStatistics)
        ensures
            r.columns@ == self.columns@,
    {
        let mut out: Vec<Option<ColumnRange>> = Vec::new();
        let mut i: usize = 0;
        while i < self.columns.len()
            invariant
                i <= self.columns@.len(),
                out@ == self.columns@.subrange(0, i as int),
            decreases self.columns@.len() - i,
        {
            out.push(self.columns[i]);
            i = i + 1;
            assert(out@ =~= self.columns@.subrange(0, i as int));
        }
        assert(out@ =~= self.columns@);
        TableStatistics { columns: out }
    }
}

/// Range covering both; unknown when either side is.
pub open spec fn union_range(a: Option<ColumnRange>, b: Option<ColumnRange>) -> Option<ColumnRange> {
    match (a, b) {
        (Some(x), Some(y)) => Some(
            ColumnRange {
                min: if x.min <= y.min {
                    x.min
                } else {
                    y.min
                },
                max: if x.max >= y.max {
                    x.max
                } else {
                    y.max
                },
            },
        ),
        _ => None,
    }
}

/// Column-wise union of two range lists of the same length.
pub open spec fn union_ranges(a: Seq<Option<ColumnRange>>, b: Seq<Option<ColumnRange>>) -> Seq<
    Option<ColumnRange>,
> {
    Seq::new(a.len(), |c: int| union_range(a[c], b[c]))
}

/// Union of the statistics of several parts, in order; `None` for no parts or parts
/// of different widths.
pub open spec fn union_all(parts: Seq<Seq<Option<ColumnRange>>>) -> Option<Seq<Option<ColumnRange>>>
    decreases parts.len(),
{
    if parts.len() == 0 {
        None
    } else if parts.len() == 1 {
        Some(parts[0])
    } else {
        match union_all(parts.drop_last()) {
            Some(u) => if u.len() == parts.last().len() {
                Some(union_ranges(u, parts.last()))
            } else {
                None
            },
            None => None,
        }
    }
}

/// Ranges of each part.
pub open spec fn stats_views(parts: Seq<TableStatistics>) -> Seq<Seq<Option<ColumnRange>>> {
    Seq::new(parts.len(), |i: int| parts[i].columns@)
}

proof fn lemma_union_all_stays_none(parts: Seq<Seq<Option<ColumnRange>>>, i: int)
    requires
        2 <= i <= parts.len(),
        union_all(parts.subrange(0, i)) is None,
    ensures
        union_all(parts) is None,
    decreases parts.len() - i,
{
    if i < parts.len() {
        assert(parts.subrange(0, i + 1).drop_last() =~= parts.subrange(0, i));
        assert(union_all(parts.subrange(0, i + 1)) is None);
        lemma_union_all_stays_none(parts, i + 1);
    } else {
        assert(parts.subrange(0, i) =~= parts);
    }
}

/// No integer within the range passes `op value`.
pub open spec fn range_refutes(op: CmpOp, value: i64, rg: ColumnRange) -> bool {
    match op {
        CmpOp::Eq => value < rg.min || value > rg.max,
        CmpOp::Lt => rg.min >= value,
        CmpOp::LtEq => rg.min > value,
        CmpOp::Gt => rg.max <= value,
        CmpOp::GtEq => rg.max < value,
    }
}

/// Predicate `i` is refuted by the range recorded for its column.
pub open spec fn refutes_at(
    fields: Seq<Field>,
    preds: Seq<Predicate>,
    ranges: Seq<Option<ColumnRange>>,
    i: int,
) -> bool {
    &&& 0 <= i < preds.len()
    &&& position_of(fields, preds[i].column@) is Some
    &&& {
        let c = position_of(fields, preds[i].column@)->Some_0;
        &&& c < ranges.len()
        &&& ranges[c] is Some
        &&& range_refutes(preds[i].op, preds[i].value, ranges[c]->Some_0)
    }
}

/// The conjunction of the predicates is false on every row the ranges describe.
pub open spec fn stats_refute(
    fields: Seq<Field>,
    preds: Seq<Predicate>,
    ranges: Seq<Option<ColumnRange>>,
) -> bool {
    exists|i: int| refutes_at(fields, preds, ranges, i)
}

/// Every integer cell of `row` lies within its column's recorded range.
pub open spec fn row_within(row: Seq<CellView>, ranges: Seq<Option<ColumnRange>>) -> bool {
    forall|c: int|
        0 <= c < ranges.len() && c < row.len() && (#[trigger] ranges[c]) is Some && row[c] is Int64
            ==> ranges[c]->Some_0.min <= row[c]->Int64_0 <= ranges[c]->Some_0.max
}

fn refuted(op: CmpOp, value: i64, rg: ColumnRange) -> (r: bool)
    ensures
        r == range_refutes(op, value, rg),
{
    match op {
        CmpOp::Eq => value < rg.min || value > rg.max,
        CmpOp::Lt => rg.min >= value,
        CmpOp::LtEq => rg.min > value,
        CmpOp::Gt => rg.max <= value,
        CmpOp::GtEq => rg.max < value,
    }
}

/// Whether the statistics prove the conjunction of `preds` false: some predicate's
/// column has a recorded range in which no value passes it.
pub fn statistics_refute(fields: &Vec<Field>, preds: &Vec<Predicate>, stats: &TableStatistics) -> (r:
    bool)
    ensures
        r == stats_refute(fields@, preds@, stats.columns@),
{
    let mut i: usize = 0;
    while i < preds.len()
        invariant
            i <= preds@.len(),
            forall|q: int| 0 <= q < i ==> !refutes_at(fields@, preds@, stats.columns@, q),
        decreases preds@.len() - i,
    {
        match index_of_name(fields, &preds[i].column) {
            Some(c) => {
                if c < stats.columns.len() {
                    match stats.columns[c] {
                        Some(rg) => {
                            if refuted(preds[i].op, preds[i].value, rg) {
                                proof {
                                    assert(refutes_at(fields@, preds@, stats.columns@, i as int));
                                }
                                return true;
                            }
                        },
                        None => {},
                    }
                }
            },
            None => {},
        }
        i = i + 1;
    }
    false
}

/// Pruning is sound: when the statistics refute the predicates, no row within the
/// recorded ranges passes them all.
pub proof fn lemma_pruning_sound(
    fields: Seq<Field>,
    preds: Seq<Predicate>,
    ranges: Seq<Option<ColumnRange>>,
    row: Seq<CellView>,
)
    requires
        stats_refute(fields, preds, ranges),
        row_within(row, ranges),
        row.len() == fields.len(),
    ensures
        !row_passes(fields, preds, row),
{
    let i = choose|i: int| refutes_at(fields, preds, ranges, i);
    let c = position_of(fields, preds[i].column@)->Some_0;
    lemma_position_in_range(fields, preds[i].column@);
    assert(0 <= c < row.len());
    assert(ranges[c] is Some);
    if row[c] is Int64 {
        assert(ranges[c]->Some_0.min <= row[c]->Int64_0 <= ranges[c]->Some_0.max);
    }
    assert(!cell_passes(preds[i].op, preds[i].value, row[c]));
}

} // verus!
