use vstd::prelude::*;
use vstd::string::StringSliceAdditionalSpecFns;

use crate::infer::{decimal, push_decimal, text_from_bytes, utf8_lossy};

verus! {

/// Errors raised while reading delimited text or materializing a partition.
#[derive(Clone, Debug, PartialEq, Eq)]
pub enum Error {
    /// The byte source failed; the message comes from the source.
    Io { message: String },
    /// A record's field count differs from the first record's.
    FieldCountMismatch { expected: usize, found: usize },
    /// An include-list name that no field of the schema carries.
    ColumnNotFound { name: String },
    /// A delimiter that is not exactly one byte.
    InvalidDelimiter { delimiter: String },
    /// The decode worker was dropped before it handed back its result.
    WorkerHandoff,
    /// The runtime failed to join a spawned unit of work.
    TaskJoin { message: String },
}

/// Text of a field-count mismatch, as bytes.
pub open spec fn mismatch_text(expected: usize, found: usize) -> Seq<u8> {
    "found record with ".spec_bytes() + decimal(found as nat)
        + " fields, but the previous record has ".spec_bytes() + decimal(expected as nat)
        + " fields".spec_bytes()
}

fn push_text(out: &mut Vec<u8>, s: &str)
    ensures
        final(out)@ == old(out)@ + s.spec_bytes(),
{
    let b = s.as_bytes();
    let mut i: usize = 0;
    while i < b.len()
        invariant
            i <= b@.len(),
            b@ == s.spec_bytes(),
            out@ == old(out)@ + b@.subrange(0, i as int),
        decreases b@.len() - i,
    {
        out.push(b[i]);
        i = i + 1;
        assert(out@ =~= old(out)@ + b@.subrange(0, i as int));
    }
    assert(b@.subrange(0, b@.len() as int) =~= b@);
}

impl Error {
    /// Readable description; a field-count mismatch names both counts.
    pub fn message(&self) -> (r: String)
        ensures
            self matches Error::FieldCountMismatch { expected, found } ==> r@ == utf8_lossy(
                mismatch_text(*expected, *found),
            ),
    {
        let mut out: Vec<u8> = Vec::new();
        match self {
            Error::Io { message } => push_text(&mut out, message.as_str()),
            Error::FieldCountMismatch { expected, found } => {
                push_text(&mut out, "found record with ");
                push_decimal(&mut out, *found);
                push_text(&mut out, " fields, but the previous record has ");
                push_decimal(&mut out, *expected);
                push_text(&mut out, " fields");
                assert(out@ =~= mismatch_text(*expected, *found));
            },
            Error::ColumnNotFound { name } => {
                push_text(&mut out, "column not found: ");
                push_text(&mut out, name.as_str());
            },
            Error::InvalidDelimiter { delimiter } => {
                push_text(&mut out, "delimiter must be a single-byte string, but got ");
                push_text(&mut out, delimiter.as_str());
            },
            Error::WorkerHandoff => push_text(
                &mut out,
                "decode worker dropped before sending its result",
            ),
            Error::TaskJoin { message } => {
                push_text(&mut out, "error joining spawned task: ");
                push_text(&mut out, message.as_str());
            },
        }
        text_from_bytes(out.as_slice())
    }

    pub open spec fn is_field_count_mismatch(&self, expected: usize, found: usize) -> bool {
        match self {
            Error::FieldCountMismatch { expected: e, found: f } => *e == expected && *f == found,
            _ => false,
        }
    }
}

} // verus!
