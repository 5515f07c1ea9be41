use vstd::prelude::*;

use crate::error::Error;

verus! {

/// Logical type of a column.
#[derive(Clone, Copy, Debug, PartialEq, Eq, Structural, Hash)]
pub enum DataType {
    Null,
    Boolean,
    Int64,
    Float64,
    Utf8,
}

/// A named, typed column slot of a schema.
#[derive(Clone, Debug, PartialEq, Eq)]
pub struct Field {
    pub name: String,
    pub dtype: DataType,
    pub nullable: bool,
}

impl Field {
    /// A nullable field.
    pub fn new(name: String, dtype: DataType) -> (r: Field)
        ensures
            r.name == name,
            r.dtype == dtype,
            r.nullable,
    {
        Field { name, dtype, nullable: true }
    }

    pub fn copy(&self) -> (r: Field)
        ensures
            r == *self,
    {
        Field { name: self.name.clone(), dtype: self.dtype, nullable: self.nullable }
    }

    /// The same field under another name.
    pub fn renamed(&self, name: String) -> (r: Field)
        ensures
            r.name == name,
            r.dtype == self.dtype,
            r.nullable == self.nullable,
    {
        Field { name, dtype: self.dtype, nullable: self.nullable }
    }
}

/// Ordered sequence of fields.
#[derive(Clone, Debug, PartialEq, Eq)]
pub struct Schema {
    pub fields: Vec<Field>,
}

/// No two fields carry the same name.
pub open spec fn names_unique(fields: Seq<Field>) -> bool {
    forall|i: int, j: int|
        0 <= i < fields.len() && 0 <= j < fields.len() && i != j ==> fields[i].name@
            != fields[j].name@
}

/// The first position of a field named `name`, if any.
pub closed spec fn position_of(fields: Seq<Field>, name: Seq<char>) -> Option<int> {
    if exists|i: int| 0 <= i < fields.len() && fields[i].name@ == name {
        let i = choose|i: int|
            0 <= i < fields.len() && fields[i].name@ == name && forall|k: int|
                0 <= k < i ==> fields[k].name@ != name;
        Some(i)
    } else {
        None
    }
}

/// Fields renamed in order by `names`; the result is as long as the shorter of the two.
pub open spec fn renamed_fields(fields: Seq<Field>, names: Seq<String>) -> Seq<Field> {
    let n = if fields.len() <= names.len() {
        fields.len()
    } else {
        names.len()
    };
    Seq::new(
        n,
        |i: int| Field { name: names[i], dtype: fields[i].dtype, nullable: fields[i].nullable },
    )
}

/// The fields at `indices`, in the order of `indices`.
pub open spec fn projected_fields(fields: Seq<Field>, indices: Seq<usize>) -> Seq<Field> {
    Seq::new(indices.len(), |k: int| fields[indices[k] as int])
}

/// Every index points into a sequence of length `n`.
pub open spec fn indices_in_range(indices: Seq<usize>, n: nat) -> bool {
    forall|k: int| 0 <= k < indices.len() ==> indices[k] < n
}

impl Schema {
    pub open spec fn wf(&self) -> bool {
        names_unique(self.fields@)
    }

    pub fn empty() -> (r: Schema)
        ensures
            r.fields@.len() == 0,
            r.wf(),
    {
        Schema { fields: Vec::new() }
    }

    pub fn copy(&self) -> (r: Schema)
        ensures
            r.fields@ == self.fields@,
    {
        Schema { fields: copy_fields(&self.fields) }
    }

    pub fn len(&self) -> (r: usize)
        ensures
            r == self.fields@.len(),
    {
        self.fields.len()
    }

    /// Names of the fields, in order.
    pub fn column_names(&self) -> (r: Vec<String>)
        ensures
            r@.len() == self.fields@.len(),
            forall|i: int| 0 <= i < r@.len() ==> r@[i] == self.fields@[i].name,
    {
        let mut out: Vec<String> = Vec::new();
        let mut i: usize = 0;
        while i < self.fields.len()
            invariant
                i <= self.fields@.len(),
                out@.len() == i,
                forall|k: int| 0 <= k < i ==> out@[k] == self.fields@[k].name,
            decreases self.fields@.len() - i,
        {
            out.push(self.fields[i].name.clone());
            i = i + 1;
        }
        out
    }

    /// Position of the first field named `name`.
    pub fn index_of(&self, name: &String) -> (r: Option<usize>)
        ensures
            r is Some <==> position_of(self.fields@, name@) is Some,
            r is Some ==> r->Some_0 as int == position_of(self.fields@, name@)->Some_0,
    {
        index_of_name(&self.fields, name)
    }
}

pub fn copy_fields(fields: &Vec<Field>) -> (r: Vec<Field>)
    ensures
        r@ == fields@,
{
    let mut out: Vec<Field> = Vec::new();
    let mut i: usize = 0;
    while i < fields.len()
        invariant
            i <= fields@.len(),
            out@ == fields@.subrange(0, i as int),
        decreases fields@.len() - i,
    {
        out.push(fields[i].copy());
        i = i + 1;
        assert(out@ =~= fields@.subrange(0, i as int));
    }
    assert(out@ =~= fields@);
    out
}

/// Position of the first field named `name`.
pub fn index_of_name(fields: &Vec<Field>, name: &String) -> (r: Option<usize>)
    ensures
        r is Some <==> position_of(fields@, name@) is Some,
        r is Some ==> r->Some_0 as int == position_of(fields@, name@)->Some_0,
{
    let mut i: usize = 0;
    while i < fields.len()
        invariant
            i <= fields@.len(),
            forall|k: int| 0 <= k < i ==> fields@[k].name@ != name@,
        decreases fields@.len() - i,
    {
        if fields[i].name == *name {
            let ghost j = choose|j: int|
                0 <= j < fields@.len() && fields@[j].name@ == name@ && forall|k: int|
                    0 <= k < j ==> fields@[k].name@ != name@;
            assert(j == i) by {
                if j < i {
                } else if j > i {
                    assert(fields@[i as int].name@ == name@);
                }
            }
            return Some(i);
        }
        i = i + 1;
    }
    None
}

/// Renames fields positionally; a shorter name list also shortens the field list.
pub fn rename_fields(fields: &Vec<Field>, names: &Vec<String>) -> (r: Vec<Field>)
    ensures
        r@ == renamed_fields(fields@, names@),
{
    let n: usize = if fields.len() <= names.len() {
        fields.len()
    } else {
        names.len()
    };
    let mut out: Vec<Field> = Vec::new();
    let mut i: usize = 0;
    while i < n
        invariant
            n <= fields@.len(),
            n <= names@.len(),
            n == if fields@.len() <= names@.len() {
                fields@.len()
            } else {
                names@.len()
            },
            i <= n,
            out@ == renamed_fields(fields@, names@).subrange(0, i as int),
        decreases n - i,
    {
        out.push(fields[i].renamed(names[i].clone()));
        i = i + 1;
        assert(out@ =~= renamed_fields(fields@, names@).subrange(0, i as int));
    }
    assert(out@ =~= renamed_fields(fields@, names@));
    out
}

/// The names an optional list holds.
pub open spec fn names_view(names: Option<Vec<String>>) -> Option<Seq<String>> {
    match names {
        Some(v) => Some(v@),
        None => None,
    }
}

/// Source-field indices to keep, in the caller's requested order: every field when no
/// include-list is given, else the position of each requested name.
pub open spec fn spec_projection(fields: Seq<Field>, wanted: Option<Seq<String>>) -> Option<
    Seq<usize>,
> {
    match wanted {
        None => Some(Seq::new(fields.len(), |i: int| i as usize)),
        Some(cols) => if forall|k: int| 0 <= k < cols.len() ==> position_of(fields, cols[k]@) is Some {
            Some(Seq::new(cols.len(), |k: int| position_of(fields, cols[k]@)->Some_0 as usize))
        } else {
            None
        },
    }
}

/// Indices of the projected fields, in the order of `include_columns`; an unknown name
/// is an error.
pub fn fields_to_projection_indices(
    fields: &Vec<Field>,
    include_columns: &Option<Vec<String>>,
) -> (r: Result<Vec<usize>, Error>)
    ensures
        r is Ok <==> spec_projection(fields@, names_view(*include_columns)) is Some,
        r is Ok ==> r->Ok_0@ == spec_projection(
            fields@,
            names_view(*include_columns),
        )->Some_0,
        r is Ok ==> indices_in_range(r->Ok_0@, fields@.len()),
        r is Err ==> r->Err_0 is ColumnNotFound,
{
    match include_columns {
        None => {
            let mut out: Vec<usize> = Vec::new();
            let mut i: usize = 0;
            while i < fields.len()
                invariant
                    include_columns is None,
                    i <= fields@.len(),
                    out@.len() == i,
                    forall|k: int| 0 <= k < i ==> out@[k] == k as usize,
                decreases fields@.len() - i,
            {
                out.push(i);
                i = i + 1;
            }
            assert(out@ =~= Seq::new(fields@.len(), |i: int| i as usize));
            assert(names_view(*include_columns) is None);
            assert(spec_projection(fields@, names_view(*include_columns)) == Some(out@));
            Ok(out)
        },
        Some(cols) => {
            assert(names_view(*include_columns) == Some(cols@));
            let mut out: Vec<usize> = Vec::new();
            let mut k: usize = 0;
            while k < cols.len()
                invariant
                    names_view(*include_columns) == Some(cols@),
                    k <= cols@.len(),
                    out@.len() == k,
                    forall|j: int|
                        #![trigger cols@[j]]
                        0 <= j < k ==> position_of(fields@, cols@[j]@) is Some && out@[j] as int
                            == position_of(fields@, cols@[j]@)->Some_0,
                decreases cols@.len() - k,
            {
                match index_of_name(fields, &cols[k]) {
                    Some(i) => {
                        let ghost prev = out@;
                        out.push(i);
                        assert(cols@[k as int] == cols[k as int]);
                        assert(out@[k as int] as int == position_of(fields@, cols@[k as int]@)->Some_0);
                        assert(position_of(fields@, cols@[k as int]@) is Some);
                        assert forall|j: int| 0 <= j < k implies out@[j] == prev[j] by {}
                    },
                    None => {
                        assert(names_view(*include_columns) == Some(cols@));
                        assert(position_of(fields@, cols@[k as int]@) is None);
                        return Err(Error::ColumnNotFound { name: cols[k].clone() });
                    },
                }
                k = k + 1;
            }
            let ghost expect = Seq::new(
                cols@.len(),
                |j: int| position_of(fields@, cols@[j]@)->Some_0 as usize,
            );
            assert(out@ =~= expect);
            assert(names_view(*include_columns) == Some(cols@));
            assert(forall|j: int| 0 <= j < cols@.len() ==> position_of(fields@, cols@[j]@) is Some);
            assert(spec_projection(fields@, Some(cols@)) == Some(expect));
            proof {
                assert forall|j: int| 0 <= j < out@.len() implies out@[j] < fields@.len() by {
                    lemma_position_in_range(fields@, cols@[j]@);
                }
            }
            Ok(out)
        },
    }
}

pub proof fn lemma_position_in_range(fields: Seq<Field>, name: Seq<char>)
    ensures
        position_of(fields, name) is Some ==> {
            let i = position_of(fields, name)->Some_0;
            0 <= i < fields.len() && fields[i].name@ == name
        },
{
    if exists|i: int| 0 <= i < fields.len() && fields[i].name@ == name {
        lemma_first_position_exists(fields, name);
    }
}

pub proof fn lemma_first_position_exists(fields: Seq<Field>, name: Seq<char>)
    requires
        exists|i: int| 0 <= i < fields.len() && fields[i].name@ == name,
    ensures
        exists|i: int|
            0 <= i < fields.len() && fields[i].name@ == name && forall|k: int|
                0 <= k < i ==> fields[k].name@ != name,
    decreases fields.len(),
{
    let i = choose|i: int| 0 <= i < fields.len() && fields[i].name@ == name;
    if fields[0].name@ == name {
        assert(forall|k: int| 0 <= k < 0 ==> fields[k].name@ != name);
    } else {
        let rest = fields.subrange(1, fields.len() as int);
        assert(rest[i - 1].name@ == name);
        lemma_first_position_exists(rest, name);
        let j = choose|j: int|
            0 <= j < rest.len() && rest[j].name@ == name && forall|k: int|
                0 <= k < j ==> rest[k].name@ != name;
        assert(fields[j + 1].name@ == name);
        assert forall|k: int| 0 <= k < j + 1 implies fields[k].name@ != name by {
            if k > 0 {
                assert(fields[k] == rest[k - 1]);
            }
        }
    }
}

/// A name that field `i` carries has a position: the first field with that name, at or
/// before `i`; when names are unique, `i` itself.
pub proof fn lemma_position_of_present(fields: Seq<Field>, name: Seq<char>, i: int)
    requires
        0 <= i < fields.len(),
        fields[i].name@ == name,
    ensures
        position_of(fields, name) is Some,
        0 <= position_of(fields, name)->Some_0 <= i,
        fields[position_of(fields, name)->Some_0].name@ == name,
        forall|k: int| 0 <= k < position_of(fields, name)->Some_0 ==> fields[k].name@ != name,
        names_unique(fields) ==> position_of(fields, name)->Some_0 == i,
{
    lemma_first_position_exists(fields, name);
    let p = position_of(fields, name)->Some_0;
    if p > i {
        assert(fields[i].name@ == name);
    }
}

/// Two field lists that agree in length and, field by field, in name text, type and
/// nullability.
pub open spec fn fields_alike(f: Seq<Field>, g: Seq<Field>) -> bool {
    &&& f.len() == g.len()
    &&& forall|i: int|
        0 <= i < f.len() ==> (#[trigger] f[i]).name@ == g[i].name@ && f[i].dtype == g[i].dtype
            && f[i].nullable == g[i].nullable
}

/// Alike field lists give every name the same position.
pub proof fn lemma_position_of_alike(f: Seq<Field>, g: Seq<Field>, name: Seq<char>)
    requires
        fields_alike(f, g),
    ensures
        position_of(f, name) == position_of(g, name),
{
    if exists|i: int| 0 <= i < f.len() && f[i].name@ == name {
        let i = choose|i: int| 0 <= i < f.len() && f[i].name@ == name;
        assert(g[i].name@ == name);
        lemma_position_of_present(f, name, i);
        lemma_position_of_present(g, name, i);
        let p = position_of(f, name)->Some_0;
        let q = position_of(g, name)->Some_0;
        if p < q {
            assert(g[p].name@ == f[p].name@);
        } else if q < p {
            assert(f[q].name@ == g[q].name@);
        }
    } else {
        assert forall|i: int| 0 <= i < g.len() implies g[i].name@ != name by {
            assert(f[i].name@ == g[i].name@);
        }
    }
}

/// A name that no field carries has no position.
pub proof fn lemma_position_of_absent(fields: Seq<Field>, name: Seq<char>)
    requires
        forall|i: int| 0 <= i < fields.len() ==> fields[i].name@ != name,
    ensures
        position_of(fields, name) is None,
{
}

/// The fields at `indices`, in that order.
pub fn project_fields(fields: &Vec<Field>, indices: &Vec<usize>) -> (r: Vec<Field>)
    requires
        indices_in_range(indices@, fields@.len()),
    ensures
        r@ == projected_fields(fields@, indices@),
{
    let mut out: Vec<Field> = Vec::new();
    let mut k: usize = 0;
    while k < indices.len()
        invariant
            indices_in_range(indices@, fields@.len()),
            k <= indices@.len(),
            out@ == projected_fields(fields@, indices@).subrange(0, k as int),
        decreases indices@.len() - k,
    {
        out.push(fields[indices[k]].copy());
        k = k + 1;
        assert(out@ =~= projected_fields(fields@, indices@).subrange(0, k as int));
    }
    assert(out@ =~= projected_fields(fields@, indices@));
    out
}

} // verus!
