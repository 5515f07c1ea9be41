use vstd::prelude::*;

use crate::error::Error;

verus! {

/// Byte that opens and closes a quoted field.
pub const QUOTE: u8 = 34;

/// Scanner modes while a record is being split.
pub const AT_FIELD_START: u8 = 0;
pub const IN_UNQUOTED: u8 = 1;
pub const IN_QUOTED: u8 = 2;
pub const AFTER_QUOTE: u8 = 3;

pub open spec fn is_terminator(b: u8) -> bool {
    b == 10 || b == 13
}

/// The fields of a record under construction, as byte sequences.
pub open spec fn fields_view(r: Seq<Vec<u8>>) -> Seq<Seq<u8>> {
    Seq::new(r.len(), |i: int| r[i]@)
}

/// Splits one record starting at `i` in scanner state (`mode`, `rec`, `field`).
/// Returns the record, if any before the end, and the position after it. A line
/// terminator is `\n` or `\r`; blank lines are skipped; inside quotes delimiters and
/// terminators are data and a doubled quote stands for one quote.
pub open spec fn scan_record(
    s: Seq<u8>,
    d: u8,
    i: int,
    mode: u8,
    rec: Seq<Seq<u8>>,
    field: Seq<u8>,
) -> (Option<Seq<Seq<u8>>>, int)
    decreases s.len() - i,
{
    if i < 0 || i >= s.len() {
        if mode == AT_FIELD_START && rec.len() == 0 {
            (None, s.len() as int)
        } else {
            (Some(rec.push(field)), s.len() as int)
        }
    } else {
        let c = s[i];
        if mode == IN_QUOTED {
            if c == QUOTE {
                scan_record(s, d, i + 1, AFTER_QUOTE, rec, field)
            } else {
                scan_record(s, d, i + 1, IN_QUOTED, rec, field.push(c))
            }
        } else if is_terminator(c) {
            if mode == AT_FIELD_START && rec.len() == 0 {
                scan_record(s, d, i + 1, AT_FIELD_START, rec, field)
            } else {
                (Some(rec.push(field)), i + 1)
            }
        } else if c == d {
            scan_record(s, d, i + 1, AT_FIELD_START, rec.push(field), Seq::empty())
        } else if mode == AT_FIELD_START && c == QUOTE {
            scan_record(s, d, i + 1, IN_QUOTED, rec, field)
        } else if mode == AFTER_QUOTE && c == QUOTE {
            scan_record(s, d, i + 1, IN_QUOTED, rec, field.push(c))
        } else {
            scan_record(s, d, i + 1, IN_UNQUOTED, rec, field.push(c))
        }
    }
}

/// Position after the record that starts at `p`.
pub open spec fn record_end(s: Seq<u8>, d: u8, p: int) -> int {
    scan_record(s, d, p, AT_FIELD_START, Seq::empty(), Seq::empty()).1
}

/// The records of `s` from position `p` on.
pub open spec fn records_from(s: Seq<u8>, d: u8, p: int) -> Seq<Seq<Seq<u8>>>
    decreases s.len() - p,
{
    let (r, q) = scan_record(s, d, p, AT_FIELD_START, Seq::empty(), Seq::empty());
    if 0 <= p < q <= s.len() && r is Some {
        seq![r->Some_0] + records_from(s, d, q)
    } else {
        Seq::empty()
    }
}

/// The records of the whole input.
pub open spec fn all_records(s: Seq<u8>, d: u8) -> Seq<Seq<Seq<u8>>> {
    records_from(s, d, 0)
}

pub proof fn lemma_scan_advances(
    s: Seq<u8>,
    d: u8,
    i: int,
    mode: u8,
    rec: Seq<Seq<u8>>,
    field: Seq<u8>,
)
    requires
        0 <= i <= s.len(),
    ensures
        i <= scan_record(s, d, i, mode, rec, field).1 <= s.len(),
        i < s.len() ==> i < scan_record(s, d, i, mode, rec, field).1,
    decreases s.len() - i,
{
    if i < s.len() {
        let c = s[i];
        if mode == IN_QUOTED {
            if c == QUOTE {
                lemma_scan_advances(s, d, i + 1, AFTER_QUOTE, rec, field);
            } else {
                lemma_scan_advances(s, d, i + 1, IN_QUOTED, rec, field.push(c));
            }
        } else if is_terminator(c) {
            if mode == AT_FIELD_START && rec.len() == 0 {
                lemma_scan_advances(s, d, i + 1, AT_FIELD_START, rec, field);
            }
        } else if c == d {
            lemma_scan_advances(s, d, i + 1, AT_FIELD_START, rec.push(field), Seq::empty());
        } else if mode == AT_FIELD_START && c == QUOTE {
            lemma_scan_advances(s, d, i + 1, IN_QUOTED, rec, field);
        } else if mode == AFTER_QUOTE && c == QUOTE {
            lemma_scan_advances(s, d, i + 1, IN_QUOTED, rec, field.push(c));
        } else {
            lemma_scan_advances(s, d, i + 1, IN_UNQUOTED, rec, field.push(c));
        }
    }
}

/// Records, each as its sequence of fields.
pub open spec fn records_view(rows: Seq<Vec<Vec<u8>>>) -> Seq<Seq<Seq<u8>>> {
    Seq::new(rows.len(), |i: int| fields_view(rows[i]@))
}

/// Each record takes at least one byte.
pub proof fn lemma_records_from_len(s: Seq<u8>, d: u8, p: int)
    requires
        0 <= p <= s.len(),
    ensures
        records_from(s, d, p).len() <= s.len() - p,
    decreases s.len() - p,
{
    lemma_scan_advances(s, d, p, AT_FIELD_START, Seq::empty(), Seq::empty());
    let (r, q) = scan_record(s, d, p, AT_FIELD_START, Seq::empty(), Seq::empty());
    if 0 <= p < q <= s.len() && r is Some {
        lemma_records_from_len(s, d, q);
    }
}

/// Every record before `hi` has as many fields as the first one.
pub open spec fn consistent(all: Seq<Seq<Seq<u8>>>, hi: int) -> bool {
    forall|j: int| 0 <= j < hi && j < all.len() ==> #[trigger] all[j].len() == all[0].len()
}

/// The record at `j` is the first whose field count differs from the first record's.
pub open spec fn first_mismatch_at(all: Seq<Seq<Seq<u8>>>, j: int) -> bool {
    0 < j < all.len() && consistent(all, j) && all[j].len() != all[0].len()
}

/// Splits records out of an in-memory byte source, in order, checking that every
/// record has the field count of the first.
pub struct RecordReader {
    data: Vec<u8>,
    delimiter: u8,
    pos: usize,
    expected: Option<usize>,
    taken: Ghost<nat>,
}

impl RecordReader {
    pub closed spec fn spec_data(&self) -> Seq<u8> {
        self.data@
    }

    pub closed spec fn spec_delimiter(&self) -> u8 {
        self.delimiter
    }

    /// Records handed out so far.
    pub closed spec fn spec_taken(&self) -> nat {
        self.taken@
    }

    pub closed spec fn spec_pos(&self) -> int {
        self.pos as int
    }

    pub open spec fn all(&self) -> Seq<Seq<Seq<u8>>> {
        all_records(self.spec_data(), self.spec_delimiter())
    }

    pub closed spec fn wf(&self) -> bool {
        &&& self.pos <= self.data@.len()
        &&& self.taken@ <= self.all().len()
        &&& records_from(self.data@, self.delimiter, self.pos as int) == self.all().skip(
            self.taken@ as int,
        )
        &&& consistent(self.all(), self.taken@ as int)
        &&& (self.taken@ == 0 <==> self.expected is None)
        &&& (self.taken@ > 0 ==> self.expected->Some_0 as int == self.all()[0].len())
    }

    pub proof fn lemma_taken_bound(&self)
        requires
            self.wf(),
        ensures
            self.spec_taken() <= self.all().len(),
            consistent(self.all(), self.spec_taken() as int),
    {
    }

    pub fn new(data: Vec<u8>, delimiter: u8) -> (r: Self)
        ensures
            r.wf(),
            r.spec_data() == data@,
            r.spec_delimiter() == delimiter,
            r.spec_taken() == 0,
    {
        let r = RecordReader { data, delimiter, pos: 0, expected: None, taken: Ghost(0) };
        assert(r.all().skip(0) =~= r.all());
        r
    }

    /// Bytes consumed so far.
    pub fn position(&self) -> (r: usize)
        ensures
            r == self.spec_pos(),
    {
        self.pos
    }

    /// The next record, or `None` at the end; the field count is not checked.
    fn next_record(&mut self) -> (r: Option<Vec<Vec<u8>>>)
        requires
            old(self).pos <= old(self).data@.len(),
        ensures
            final(self).data == old(self).data,
            final(self).delimiter == old(self).delimiter,
            final(self).expected == old(self).expected,
            final(self).taken == old(self).taken,
            old(self).pos <= final(self).pos <= final(self).data@.len(),
            r is None ==> final(self).pos == final(self).data@.len(),
            ({
                let rs = records_from(old(self).data@, old(self).delimiter, old(self).pos as int);
                &&& r is None <==> rs.len() == 0
                &&& r is Some ==> fields_view(r->Some_0@) == rs[0] && records_from(
                    final(self).data@,
                    final(self).delimiter,
                    final(self).pos as int,
                ) == rs.drop_first()
            }),
    {
        let ghost s = self.data@;
        let ghost d = self.delimiter;
        let ghost p = self.pos as int;
        let n = self.data.len();
        let mut i: usize = self.pos;
        let mut mode: u8 = AT_FIELD_START;
        let mut rec: Vec<Vec<u8>> = Vec::new();
        let mut field: Vec<u8> = Vec::new();
        proof {
            lemma_scan_advances(s, d, p, AT_FIELD_START, Seq::empty(), Seq::empty());
            assert(fields_view(rec@) =~= Seq::<Seq<u8>>::empty());
            assert(field@ =~= Seq::<u8>::empty());
        }
        while i < n
            invariant
                s == self.data@,
                d == self.delimiter,
                n == s.len(),
                p <= i <= n,
                p == old(self).pos,
                self.data == old(self).data,
                self.delimiter == old(self).delimiter,
                self.expected == old(self).expected,
                self.taken == old(self).taken,
                self.pos == old(self).pos,
                scan_record(s, d, p, AT_FIELD_START, Seq::empty(), Seq::empty()) == scan_record(
                    s,
                    d,
                    i as int,
                    mode,
                    fields_view(rec@),
                    field@,
                ),
                mode == AT_FIELD_START && rec@.len() == 0 ==> field@.len() == 0,
            decreases n - i,
        {
            let c = self.data[i];
            let ghost rv = fields_view(rec@);
            let ghost m0 = mode;
            let ghost f0 = field@;
            assert(c == s[i as int]);
            if mode == IN_QUOTED {
                if c == QUOTE {
                    mode = AFTER_QUOTE;
                } else {
                    field.push(c);
                }
            } else if c == 10u8 || c == 13u8 {
                if mode == AT_FIELD_START && rec.len() == 0 {
                    // A blank line.
                    } else {
                    rec.push(field);
                    proof {
                        assert(fields_view(rec@) =~= rv.push(field@));
                        lemma_scan_advances(s, d, p, AT_FIELD_START, Seq::empty(), Seq::empty());
                    }
                    self.pos = i + 1;
                    proof {
                        self.lemma_unfold_records(s, d, p);
                    }
                    return Some(rec);
                }
            } else if c == self.delimiter {
                let ghost fv = field@;
                rec.push(field);
                field = Vec::new();
                mode = AT_FIELD_START;
                proof {
                    assert(fields_view(rec@) =~= rv.push(fv));
                    assert(field@ =~= Seq::<u8>::empty());
                }
            } else if mode == AT_FIELD_START && c == QUOTE {
                mode = IN_QUOTED;
            } else if mode == AFTER_QUOTE && c == QUOTE {
                field.push(c);
                mode = IN_QUOTED;
            } else {
                field.push(c);
                mode = IN_UNQUOTED;
            }
            assert(scan_record(s, d, i as int, m0, rv, f0) == scan_record(
                s,
                d,
                i + 1,
                mode,
                fields_view(rec@),
                field@,
            ));
            i = i + 1;
        }
        proof {
            lemma_scan_advances(s, d, p, AT_FIELD_START, Seq::empty(), Seq::empty());
        }
        if mode == AT_FIELD_START && rec.len() == 0 {
            self.pos = n;
            proof {
                assert(records_from(s, d, p) =~= Seq::<Seq<Seq<u8>>>::empty());
            }
            None
        } else {
            let ghost rv = fields_view(rec@);
            rec.push(field);
            proof {
                assert(fields_view(rec@) =~= rv.push(field@));
            }
            self.pos = n;
            proof {
                self.lemma_unfold_records(s, d, p);
            }
            Some(rec)
        }
    }

    /// Reads up to `max_rows` further records, fewer only at the end of the input. A
    /// record whose field count differs from the first record's is an error.
    pub fn read_rows(&mut self, max_rows: usize) -> (r: Result<Vec<Vec<Vec<u8>>>, Error>)
        requires
            old(self).wf(),
        ensures
            final(self).spec_data() == old(self).spec_data(),
            final(self).spec_delimiter() == old(self).spec_delimiter(),
            r is Ok ==> old(self).spec_pos() <= final(self).spec_pos(),
            ({
                let all = old(self).all();
                let k = old(self).spec_taken() as int;
                let m = if max_rows < all.len() - k {
                    max_rows as int
                } else {
                    all.len() - k
                };
                &&& r is Ok <==> consistent(all, k + m)
                &&& r is Ok ==> final(self).wf() && final(self).spec_taken() == k + m
                    && records_view(r->Ok_0@) == all.subrange(k, k + m)
                &&& r is Err ==> exists|j: int|
                    k <= j < k + m && first_mismatch_at(all, j)
                        && r->Err_0.is_field_count_mismatch(
                        all[0].len() as usize,
                        all[j].len() as usize,
                    )
            }),
    {
        let ghost all = self.all();
        let ghost k = self.taken@ as int;
        let mut out: Vec<Vec<Vec<u8>>> = Vec::new();
        while out.len() < max_rows
            invariant
                self.wf(),
                all == self.all(),
                self.spec_data() == old(self).spec_data(),
                self.spec_delimiter() == old(self).spec_delimiter(),
                self.taken@ == k + out@.len(),
                out@.len() <= max_rows,
                records_view(out@) == all.subrange(k, k + out@.len()),
                self.taken@ <= all.len(),
                0 <= k <= self.taken@,
                k == old(self).spec_taken(),
                old(self).pos <= self.pos,
                all == old(self).all(),
            ensures
                self.wf(),
                all == self.all(),
                self.spec_data() == old(self).spec_data(),
                self.spec_delimiter() == old(self).spec_delimiter(),
                self.taken@ == k + out@.len(),
                records_view(out@) == all.subrange(k, k + out@.len()),
                out@.len() == max_rows || self.taken@ == all.len(),
                out@.len() <= max_rows,
                old(self).pos <= self.pos,
            decreases max_rows - out@.len(),
        {
            let ghost t = self.taken@ as int;
            assert(k <= t);
            match self.next_record() {
                None => {
                    proof {
                        assert(all.skip(t).len() == 0);
                        assert(t == all.len());
                        assert(records_from(self.spec_data(), self.spec_delimiter(), self.spec_pos())
                            =~= Seq::<Seq<Seq<u8>>>::empty());
                        assert(records_from(self.spec_data(), self.spec_delimiter(), self.spec_pos())
                            =~= all.skip(t));
                    }
                    break;
                },
                Some(rec) => {
                    proof {
                        assert(all.skip(t).len() > 0);
                        assert(t < all.len());
                        assert(all.skip(t)[0] == all[t]);
                        assert(all.skip(t).drop_first() =~= all.skip(t + 1));
                    }
                    let count = rec.len();
                    match self.expected {
                        None => {
                            self.expected = Some(count);
                        },
                        Some(e) => {
                            if count != e {
                                proof {
                                    assert(t < all.len());
                                    assert(all[t].len() == count);
                                    assert(e == all[0].len());
                                    assert(t > 0);
                                    assert(first_mismatch_at(all, t));
                                    assert(!consistent(all, t + 1));
                                    assert(t < k + max_rows);
                                }
                                let err = Error::FieldCountMismatch { expected: e, found: count };
                                proof {
                                    assert(err.is_field_count_mismatch(
                                        all[0].len() as usize,
                                        all[t].len() as usize,
                                    ));
                                    let m = if max_rows < all.len() - k {
                                        max_rows as int
                                    } else {
                                        all.len() - k
                                    };
                                    assert(k <= t < k + m);
                                    assert(all == old(self).all());
                                    assert(all[t].len() != all[0].len());
                                    assert(!consistent(all, k + m));
                                    assert(k == old(self).spec_taken());
                                    assert(exists|j: int|
                                        k <= j < k + m && first_mismatch_at(all, j)
                                            && err.is_field_count_mismatch(
                                            all[0].len() as usize,
                                            all[j].len() as usize,
                                        ));
                                }
                                return Err(err);
                            }
                        },
                    }
                    let ghost rv = records_view(out@);
                    out.push(rec);
                    self.taken = Ghost((t + 1) as nat);
                    proof {
                        assert(records_view(out@) =~= rv.push(all[t]));
                        assert(0 <= k);
                        assert(k <= t);
                        assert(t < all.len());
                        assert forall|i: int| 0 <= i < t + 1 - k implies all.subrange(k, t + 1)[i]
                            == all.subrange(k, t).push(all[t])[i] by {
                            if i < t - k {
                            }
                        }
                        assert(all.subrange(k, t + 1) =~= all.subrange(k, t).push(all[t]));
                        assert forall|j: int| 0 <= j < t + 1 && j < all.len() implies #[trigger] all[j].len()
                            == all[0].len() by {
                            if j < t {
                            }
                        }
                    }
                },
            }
        }
        proof {
            assert(all.subrange(k, k + out@.len()) == all.subrange(k, self.taken@ as int));
        }
        Ok(out)
    }

    /// Splits every remaining record, without checking field counts.
    pub fn split_remaining(&mut self) -> (r: Vec<Vec<Vec<u8>>>)
        requires
            old(self).wf(),
            old(self).spec_taken() == 0,
        ensures
            records_view(r@) == old(self).all(),
            final(self).spec_data() == old(self).spec_data(),
            final(self).spec_delimiter() == old(self).spec_delimiter(),
    {
        let ghost all = self.all();
        let mut out: Vec<Vec<Vec<u8>>> = Vec::new();
        proof {
            assert(all.skip(0) =~= all);
        }
        loop
            invariant
                self.pos <= self.data@.len(),
                self.data == old(self).data,
                self.delimiter == old(self).delimiter,
                all == all_records(self.data@, self.delimiter),
                out@.len() <= all.len(),
                records_view(out@) == all.subrange(0, out@.len() as int),
                records_from(self.data@, self.delimiter, self.pos as int) == all.skip(
                    out@.len() as int,
                ),
            ensures
                records_view(out@) == all,
                self.data == old(self).data,
                self.delimiter == old(self).delimiter,
            decreases all.len() - out@.len(),
        {
            let ghost t = out@.len() as int;
            match self.next_record() {
                None => {
                    proof {
                        assert(all.skip(t).len() == 0);
                        assert(all.subrange(0, t) =~= all);
                    }
                    break;
                },
                Some(rec) => {
                    proof {
                        assert(all.skip(t).len() > 0);
                        assert(all.skip(t)[0] == all[t]);
                        assert(all.skip(t).drop_first() =~= all.skip(t + 1));
                    }
                    let ghost rv = records_view(out@);
                    out.push(rec);
                    proof {
                        assert(records_view(out@) =~= rv.push(all[t]));
                        assert(all.subrange(0, t + 1) =~= all.subrange(0, t).push(all[t]));
                    }
                },
            }
        }
        out
    }

    proof fn lemma_unfold_records(&self, s: Seq<u8>, d: u8, p: int)
        requires
            0 <= p < s.len(),
            self.data@ == s,
            self.delimiter == d,
            self.pos as int == record_end(s, d, p),
            scan_record(s, d, p, AT_FIELD_START, Seq::empty(), Seq::empty()).0 is Some,
        ensures
            records_from(s, d, p).len() > 0,
            records_from(s, d, p)[0] == scan_record(
                s,
                d,
                p,
                AT_FIELD_START,
                Seq::empty(),
                Seq::empty(),
            ).0->Some_0,
            records_from(s, d, self.pos as int) == records_from(s, d, p).drop_first(),
    {
        lemma_scan_advances(s, d, p, AT_FIELD_START, Seq::empty(), Seq::empty());
        let q = record_end(s, d, p);
        let r = scan_record(s, d, p, AT_FIELD_START, Seq::empty(), Seq::empty()).0->Some_0;
        assert(records_from(s, d, p) == seq![r] + records_from(s, d, q));
        assert((seq![r] + records_from(s, d, q)).drop_first() =~= records_from(s, d, q));
    }
}

} // verus!
