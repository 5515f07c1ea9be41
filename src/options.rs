use vstd::prelude::*;

use vstd::string::StringSliceAdditionalSpecFns;

use crate::error::Error;
use crate::schema::Schema;

verus! {

/// Buffer size used when neither size is given (512 KiB).
pub const DEFAULT_BUFFER_SIZE: usize = 524288;

/// Chunk size used when neither size is given (64 KiB).
pub const DEFAULT_CHUNK_SIZE: usize = 65536;

/// Options for converting delimited text into a table.
#[derive(Clone, Debug, PartialEq, Eq)]
pub struct CsvConvertOptions {
    /// Read at most this many data rows.
    pub limit: Option<usize>,
    /// Keep only these columns, in this order.
    pub include_columns: Option<Vec<String>>,
    /// Rename the file's columns positionally.
    pub column_names: Option<Vec<String>>,
    /// Names and types of the file's columns; inferred when absent.
    pub schema: Option<Schema>,
}

/// A copy of a list of names.
pub fn copy_names(names: &Vec<String>) -> (r: Vec<String>)
    ensures
        r@ == names@,
{
    let mut out: Vec<String> = Vec::new();
    let mut i: usize = 0;
    while i < names.len()
        invariant
            i <= names@.len(),
            out@ == names@.subrange(0, i as int),
        decreases names@.len() - i,
    {
        out.push(names[i].clone());
        i = i + 1;
        assert(out@ =~= names@.subrange(0, i as int));
    }
    assert(out@ =~= names@);
    out
}

fn copy_opt_names(names: &Option<Vec<String>>) -> (r: Option<Vec<String>>)
    ensures
        r is Some <==> names is Some,
        r is Some ==> r->Some_0@ == names->Some_0@,
{
    match names {
        Some(v) => Some(copy_names(v)),
        None => None,
    }
}

impl CsvConvertOptions {
    pub fn new_internal(
        limit: Option<usize>,
        include_columns: Option<Vec<String>>,
        column_names: Option<Vec<String>>,
        schema: Option<Schema>,
    ) -> (r: Self)
        ensures
            r.limit == limit,
            r.include_columns == include_columns,
            r.column_names == column_names,
            r.schema == schema,
    {
        CsvConvertOptions { limit, include_columns, column_names, schema }
    }

    pub fn new(
        limit: Option<usize>,
        include_columns: Option<Vec<String>>,
        column_names: Option<Vec<String>>,
        schema: Option<Schema>,
    ) -> (r: Self)
        ensures
            r.limit == limit,
            r.include_columns == include_columns,
            r.column_names == column_names,
            r.schema == schema,
    {
        Self::new_internal(limit, include_columns, column_names, schema)
    }

    pub fn with_limit(self, limit: Option<usize>) -> (r: Self)
        ensures
            r.limit == limit,
            r.include_columns == self.include_columns,
            r.column_names == self.column_names,
            r.schema == self.schema,
    {
        CsvConvertOptions { limit, ..self }
    }

    pub fn with_include_columns(self, include_columns: Option<Vec<String>>) -> (r: Self)
        ensures
            r.limit == self.limit,
            r.include_columns == include_columns,
            r.column_names == self.column_names,
            r.schema == self.schema,
    {
        CsvConvertOptions { include_columns, ..self }
    }

    pub fn with_column_names(self, column_names: Option<Vec<String>>) -> (r: Self)
        ensures
            r.limit == self.limit,
            r.include_columns == self.include_columns,
            r.column_names == column_names,
            r.schema == self.schema,
    {
        CsvConvertOptions { column_names, ..self }
    }

    pub fn with_schema(self, schema: Option<Schema>) -> (r: Self)
        ensures
            r.limit == self.limit,
            r.include_columns == self.include_columns,
            r.column_names == self.column_names,
            r.schema == schema,
    {
        CsvConvertOptions { schema, ..self }
    }

    pub fn get_limit(&self) -> (r: Option<usize>)
        ensures
            r == self.limit,
    {
        self.limit
    }

    pub fn get_include_columns(&self) -> (r: Option<Vec<String>>)
        ensures
            r is Some <==> self.include_columns is Some,
            r is Some ==> r->Some_0@ == self.include_columns->Some_0@,
    {
        copy_opt_names(&self.include_columns)
    }

    pub fn get_column_names(&self) -> (r: Option<Vec<String>>)
        ensures
            r is Some <==> self.column_names is Some,
            r is Some ==> r->Some_0@ == self.column_names->Some_0@,
    {
        copy_opt_names(&self.column_names)
    }

    pub fn get_schema(&self) -> (r: Option<Schema>)
        ensures
            r is Some <==> self.schema is Some,
            r is Some ==> r->Some_0.fields@ == self.schema->Some_0.fields@,
    {
        match &self.schema {
            Some(s) => Some(s.copy()),
            None => None,
        }
    }
}

impl Default for CsvConvertOptions {
    /// No limit, every column, names and types from the file.
    fn default() -> (r: Self)
        ensures
            r.limit is None,
            r.include_columns is None,
            r.column_names is None,
            r.schema is None,
    {
        Self::new_internal(None, None, None, None)
    }
}

/// Options for parsing delimited text.
#[derive(Clone, Copy, Debug, PartialEq, Eq, Structural, Hash)]
pub struct CsvParseOptions {
    pub has_header: bool,
    pub delimiter: u8,
}

impl CsvParseOptions {
    pub fn new_internal(has_header: bool, delimiter: u8) -> (r: Self)
        ensures
            r.has_header == has_header,
            r.delimiter == delimiter,
    {
        CsvParseOptions { has_header, delimiter }
    }

    /// Parse options with a delimiter given as text, which must be one byte long.
    pub fn new(has_header: bool, delimiter: &str) -> (r: Result<Self, Error>)
        ensures
            delimiter.spec_bytes().len() == 1 <==> r is Ok,
            r is Ok ==> r->Ok_0.has_header == has_header && r->Ok_0.delimiter
                == delimiter.spec_bytes()[0],
            r is Err ==> (r->Err_0 matches Error::InvalidDelimiter { delimiter: d } && d@
                == delimiter@),
    {
        match str_delimiter_to_byte(delimiter) {
            Ok(d) => Ok(Self::new_internal(has_header, d)),
            Err(e) => Err(e),
        }
    }

    pub fn with_has_header(self, has_header: bool) -> (r: Self)
        ensures
            r.has_header == has_header,
            r.delimiter == self.delimiter,
    {
        CsvParseOptions { has_header, delimiter: self.delimiter }
    }

    pub fn with_delimiter(self, delimiter: u8) -> (r: Self)
        ensures
            r.has_header == self.has_header,
            r.delimiter == delimiter,
    {
        CsvParseOptions { has_header: self.has_header, delimiter }
    }
}

impl Default for CsvParseOptions {
    /// A header row and a comma delimiter.
    fn default() -> (r: Self)
        ensures
            r.has_header,
            r.delimiter == 44,
    {
        Self::new_internal(true, 44u8)
    }
}

/// The single byte of a delimiter given as text.
pub fn str_delimiter_to_byte(delimiter: &str) -> (r: Result<u8, Error>)
    ensures
        delimiter.spec_bytes().len() == 1 <==> r is Ok,
        r is Ok ==> r->Ok_0 == delimiter.spec_bytes()[0],
        r is Err ==> (r->Err_0 matches Error::InvalidDelimiter { delimiter: d } && d@ == delimiter@),
{
    let bytes = delimiter.as_bytes();
    if bytes.len() == 1 {
        Ok(bytes[0])
    } else {
        Err(Error::InvalidDelimiter { delimiter: delimiter.to_owned() })
    }
}

/// Options for the streaming reader: buffer and chunk sizes in bytes.
#[derive(Clone, Copy, Debug, PartialEq, Eq, Structural, Hash)]
pub struct CsvReadOptions {
    pub buffer_size: Option<usize>,
    pub chunk_size: Option<usize>,
}

/// `8 * n`, held at the largest `usize` where it would not fit.
pub open spec fn times_eight(n: usize) -> usize {
    if 8 * n <= usize::MAX {
        (8 * n) as usize
    } else {
        usize::MAX
    }
}

impl CsvReadOptions {
    pub fn new_internal(buffer_size: Option<usize>, chunk_size: Option<usize>) -> (r: Self)
        ensures
            r.buffer_size == buffer_size,
            r.chunk_size == chunk_size,
    {
        CsvReadOptions { buffer_size, chunk_size }
    }

    pub fn new(buffer_size: Option<usize>, chunk_size: Option<usize>) -> (r: Self)
        ensures
            r.buffer_size == buffer_size,
            r.chunk_size == chunk_size,
    {
        Self::new_internal(buffer_size, chunk_size)
    }

    pub fn with_buffer_size(self, buffer_size: Option<usize>) -> (r: Self)
        ensures
            r.buffer_size == buffer_size,
            r.chunk_size == self.chunk_size,
    {
        CsvReadOptions { buffer_size, chunk_size: self.chunk_size }
    }

    pub fn with_chunk_size(self, chunk_size: Option<usize>) -> (r: Self)
        ensures
            r.buffer_size == self.buffer_size,
            r.chunk_size == chunk_size,
    {
        CsvReadOptions { buffer_size: self.buffer_size, chunk_size }
    }

    /// The buffer size in effect: the given one, else eight chunks, else 512 KiB.
    pub open spec fn spec_buffer_size(opts: Option<Self>) -> usize {
        match opts {
            Some(o) => match (o.buffer_size, o.chunk_size) {
                (Some(b), _) => b,
                (None, Some(c)) => times_eight(c),
                (None, None) => DEFAULT_BUFFER_SIZE,
            },
            None => DEFAULT_BUFFER_SIZE,
        }
    }

    /// The chunk size in effect: the given one, else an eighth of the buffer, else 64 KiB.
    pub open spec fn spec_chunk_size(opts: Option<Self>) -> usize {
        match opts {
            Some(o) => match (o.chunk_size, o.buffer_size) {
                (Some(c), _) => c,
                (None, Some(b)) => (b / 8) as usize,
                (None, None) => DEFAULT_CHUNK_SIZE,
            },
            None => DEFAULT_CHUNK_SIZE,
        }
    }

    pub fn resolve_buffer_size(opts: Option<Self>) -> (r: usize)
        ensures
            r == Self::spec_buffer_size(opts),
    {
        match opts {
            Some(o) => match (o.buffer_size, o.chunk_size) {
                (Some(b), _) => b,
                (None, Some(c)) => if c <= usize::MAX / 8 {
                    c * 8
                } else {
                    usize::MAX
                },
                (None, None) => DEFAULT_BUFFER_SIZE,
            },
            None => DEFAULT_BUFFER_SIZE,
        }
    }

    pub fn resolve_chunk_size(opts: Option<Self>) -> (r: usize)
        ensures
            r == Self::spec_chunk_size(opts),
    {
        match opts {
            Some(o) => match (o.chunk_size, o.buffer_size) {
                (Some(c), _) => c,
                (None, Some(b)) => b / 8,
                (None, None) => DEFAULT_CHUNK_SIZE,
            },
            None => DEFAULT_CHUNK_SIZE,
        }
    }
}

impl Default for CsvReadOptions {
    fn default() -> (r: Self)
        ensures
            r.buffer_size is None,
            r.chunk_size is None,
    {
        Self::new_internal(None, None)
    }
}

} // verus!
