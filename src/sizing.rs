use vstd::prelude::*;

verus! {

/// Fewest rows read into one batch, however large the rows are.
pub const MIN_BATCH_ROWS: usize = 8;

/// Prior mean record size in bytes, used until records have been seen.
pub const PRIOR_MEAN_BYTES: u64 = 200;

/// Prior standard deviation of the record size in bytes.
pub const PRIOR_STDDEV_BYTES: u64 = 20;

/// Running mean and variance of bytes per record, kept by Welford's online update in
/// integer arithmetic (divisions round toward zero).
#[derive(Clone, Copy, Debug, PartialEq, Eq, Structural)]
pub struct RowSizeEstimate {
    /// Observations folded in so far.
    pub count: u64,
    /// Running mean in bytes.
    pub mean: u64,
    /// Running sum of squared deviations (Welford's M2), held at `u64::MAX`.
    pub m2: u64,
    /// Standard deviation used before a second observation exists.
    pub seed_stddev: u64,
}

/// Largest `r` with `r * r <= v`.
pub open spec fn is_isqrt(v: int, r: int) -> bool {
    0 <= r && r * r <= v && v < (r + 1) * (r + 1)
}

/// Integer square root, rounded down.
pub fn isqrt(v: u64) -> (r: u64)
    ensures
        is_isqrt(v as int, r as int),
{
    let mut lo: u64 = 0;
    let mut hi: u64 = 4294967296;
    assert(hi * hi > v) by (nonlinear_arith)
        requires
            hi == 4294967296,
            v <= u64::MAX,
    ;
    while hi - lo > 1
        invariant
            lo < hi <= 4294967296,
            lo * lo <= v,
            v < hi * hi,
        decreases hi - lo,
    {
        let mid = lo + (hi - lo) / 2;
        assert(mid < 4294967296);
        assert(mid * mid <= 4294967295 * 4294967295) by (nonlinear_arith)
            requires
                mid < 4294967296,
        ;
        if (mid as u128) * (mid as u128) <= v as u128 {
            lo = mid;
        } else {
            hi = mid;
        }
    }
    assert(hi == lo + 1);
    lo
}

/// Mean after folding `x` into `count` observations whose mean is `mean`.
pub open spec fn next_mean(count: int, mean: int, x: int) -> int {
    if x >= mean {
        mean + (x - mean) / (count + 1)
    } else {
        mean - (mean - x) / (count + 1)
    }
}

/// The estimate after folding in one observed record size `x` (Welford's update): the
/// count grows by one, the mean moves toward `x` by `(x - mean) / count`, and M2 grows
/// by `(x - old mean) * (x - new mean)`, held at `u64::MAX`. A full counter leaves the
/// estimate as it is.
pub open spec fn observed(e: RowSizeEstimate, x: u64) -> RowSizeEstimate {
    if e.count == u64::MAX {
        e
    } else {
        let n = e.count as int;
        let m = if n == 0 {
            x as int
        } else {
            next_mean(n, e.mean as int, x as int)
        };
        let inc = (x - e.mean) * (x - m);
        RowSizeEstimate {
            count: (n + 1) as u64,
            mean: m as u64,
            m2: if n == 0 {
                0
            } else if e.m2 + inc <= u64::MAX {
                (e.m2 + inc) as u64
            } else {
                u64::MAX
            },
            seed_stddev: e.seed_stddev,
        }
    }
}

impl RowSizeEstimate {
    /// Estimate seeded from earlier sampling, or from the prior when absent.
    pub fn new(seed_mean: Option<u64>, seed_stddev: Option<u64>) -> (r: Self)
        ensures
            r.count == 0,
            r.m2 == 0,
            r.mean == match seed_mean {
                Some(m) => m,
                None => PRIOR_MEAN_BYTES,
            },
            r.seed_stddev == match seed_stddev {
                Some(s) => s,
                None => PRIOR_STDDEV_BYTES,
            },
    {
        let mean = match seed_mean {
            Some(m) => m,
            None => PRIOR_MEAN_BYTES,
        };
        let sd = match seed_stddev {
            Some(s) => s,
            None => PRIOR_STDDEV_BYTES,
        };
        RowSizeEstimate { count: 0, mean, m2: 0, seed_stddev: sd }
    }

    /// Variance in use: `M2 / (count - 1)` once two observations exist, else the seed's.
    pub open spec fn spec_variance(&self) -> int {
        if self.count >= 2 {
            self.m2 as int / (self.count - 1)
        } else {
            self.seed_stddev * self.seed_stddev
        }
    }

    /// Standard deviation in bytes, rounded down.
    pub fn stddev(&self) -> (r: u64)
        ensures
            self.count >= 2 ==> is_isqrt(self.spec_variance(), r as int),
            self.count < 2 ==> r == self.seed_stddev,
    {
        if self.count >= 2 {
            isqrt(self.m2 / (self.count - 1))
        } else {
            self.seed_stddev
        }
    }

    /// Capacity for one record: mean plus one standard deviation.
    pub fn record_buffer_size(&self) -> (r: u64)
        ensures
            self.count >= 2 ==> exists|sd: int|
                is_isqrt(self.spec_variance(), sd) && r == if self.mean + sd <= u64::MAX {
                    self.mean + sd
                } else {
                    u64::MAX as int
                },
            self.count < 2 ==> r == if self.mean + self.seed_stddev <= u64::MAX {
                self.mean + self.seed_stddev
            } else {
                u64::MAX as int
            },
    {
        let sd = self.stddev();
        if self.mean <= u64::MAX - sd {
            self.mean + sd
        } else {
            u64::MAX
        }
    }

    /// Folds in one observed record size (Welford's update). A full counter leaves the
    /// estimate as it is.
    pub fn observe(&mut self, x: u64)
        ensures
            *final(self) == observed(*old(self), x),
    {
        if self.count == u64::MAX {
            return ;
        }
        if self.count == 0 {
            self.count = 1;
            self.mean = x;
            self.m2 = 0;
            return ;
        }
        let n1: i128 = (self.count as i128) + 1;
        let delta: i128 = (x as i128) - (self.mean as i128);
        let new_mean: i128 = if x >= self.mean {
            (self.mean as i128) + ((x - self.mean) as i128) / n1
        } else {
            (self.mean as i128) - ((self.mean - x) as i128) / n1
        };
        proof {
            lemma_mean_between(self.mean as int, x as int, n1 as int);
        }
        let delta2: i128 = (x as i128) - new_mean;
        // Both differences share a sign, so the product is their magnitudes' product.
        let a: u128 = if delta >= 0 {
            delta as u128
        } else {
            (-delta) as u128
        };
        let b: u128 = if delta2 >= 0 {
            delta2 as u128
        } else {
            (-delta2) as u128
        };
        assert(a * b == delta * delta2 && b <= a) by (nonlinear_arith)
            requires
                delta == x - self.mean,
                delta2 == x - new_mean,
                self.mean <= new_mean <= x || x <= new_mean <= self.mean,
                a == if delta >= 0 { delta as int } else { -delta },
                b == if delta2 >= 0 { delta2 as int } else { -delta2 },
        ;
        assert(a * b <= 0xFFFF_FFFF_FFFF_FFFF * 0xFFFF_FFFF_FFFF_FFFF) by (nonlinear_arith)
            requires
                a <= 0xFFFF_FFFF_FFFF_FFFF,
                b <= a,
        ;
        let inc: u128 = a * b;
        let total: u128 = (self.m2 as u128) + inc;
        self.count = self.count + 1;
        self.mean = new_mean as u64;
        self.m2 = if total <= u64::MAX as u128 {
            total as u64
        } else {
            u64::MAX
        };
    }
}

/// The updated mean lies between the old mean and the new observation.
proof fn lemma_mean_between(mean: int, x: int, n1: int)
    requires
        n1 >= 2,
    ensures
        mean <= next_mean(n1 - 1, mean, x) <= x || x <= next_mean(n1 - 1, mean, x) <= mean,
{
    let d = if x >= mean {
        x - mean
    } else {
        mean - x
    };
    assert(0 <= d / n1 <= d) by (nonlinear_arith)
        requires
            d >= 0,
            n1 >= 2,
    ;
}

/// Rows for the next batch: the chunk's byte budget over the mean record size (taken
/// as at least one byte), at least `MIN_BATCH_ROWS`, and never more than the rows left.
pub open spec fn spec_batch_rows(chunk_bytes: usize, mean: u64, remaining: usize) -> usize {
    let m: int = if mean == 0 {
        1
    } else {
        mean as int
    };
    let per_chunk: int = chunk_bytes as int / m;
    let at_least: int = if per_chunk < MIN_BATCH_ROWS {
        MIN_BATCH_ROWS as int
    } else {
        per_chunk
    };
    if at_least < remaining {
        at_least as usize
    } else {
        remaining
    }
}

pub fn batch_rows(chunk_bytes: usize, mean: u64, remaining: usize) -> (r: usize)
    ensures
        r == spec_batch_rows(chunk_bytes, mean, remaining),
        r <= remaining,
        remaining > 0 ==> r > 0,
{
    let m: u64 = if mean == 0 {
        1
    } else {
        mean
    };
    let per_chunk: u64 = (chunk_bytes as u64) / m;
    let at_least: u64 = if per_chunk < MIN_BATCH_ROWS as u64 {
        MIN_BATCH_ROWS as u64
    } else {
        per_chunk
    };
    if at_least < remaining as u64 {
        at_least as usize
    } else {
        remaining
    }
}

/// Sizing decisions of a batched read: how many rows to ask for next, given the rows
/// read so far, the row limit and the running record-size estimate.
pub struct BatchPlanner {
    pub estimate: RowSizeEstimate,
    pub chunk_size: usize,
    pub limit: usize,
    pub total: usize,
}

impl BatchPlanner {
    pub open spec fn wf(&self) -> bool {
        self.total <= self.limit
    }

    /// A planner with nothing read yet; no limit reads every row.
    pub fn new(chunk_size: usize, limit: Option<usize>, seed_mean: Option<u64>) -> (r: Self)
        ensures
            r.wf(),
            r.total == 0,
            r.chunk_size == chunk_size,
            r.limit == match limit {
                Some(l) => l,
                None => usize::MAX,
            },
            r.estimate.count == 0,
    {
        let lim = match limit {
            Some(l) => l,
            None => usize::MAX,
        };
        BatchPlanner {
            estimate: RowSizeEstimate::new(seed_mean, None),
            chunk_size,
            limit: lim,
            total: 0,
        }
    }

    /// Rows to ask for next; zero once the limit is reached.
    pub open spec fn spec_request(&self) -> usize {
        if self.total >= self.limit {
            0
        } else {
            spec_batch_rows(self.chunk_size, self.estimate.mean, (self.limit - self.total) as usize)
        }
    }

    /// Rows to ask for next; zero once the limit is reached.
    pub fn next_request(&self) -> (r: usize)
        requires
            self.wf(),
        ensures
            r == self.spec_request(),
            r <= self.limit - self.total,
            self.total < self.limit ==> r > 0,
    {
        if self.total >= self.limit {
            0
        } else {
            batch_rows(self.chunk_size, self.estimate.mean, self.limit - self.total)
        }
    }

    /// Notes a batch of `rows` records (at least one) that took `bytes` bytes: the
    /// total grows and the estimate folds in the batch's bytes per record.
    pub fn record(&mut self, rows: usize, bytes: usize)
        requires
            old(self).wf(),
            0 < rows <= old(self).limit - old(self).total,
        ensures
            final(self).wf(),
            final(self).total == old(self).total + rows,
            final(self).limit == old(self).limit,
            final(self).chunk_size == old(self).chunk_size,
            final(self).estimate == observed(old(self).estimate, (bytes / rows) as u64),
    {
        self.total = self.total + rows;
        self.estimate.observe((bytes / rows) as u64);
    }
}

} // verus!
