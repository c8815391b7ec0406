use vstd::prelude::*;

verus! {

/// The type of a column, as far as the schema contract tells types apart.
#[derive(Clone, Copy, Debug, PartialEq, Eq, Structural)]
pub enum ColumnType {
    Str,
    Float64,
    Int64,
    Boolean,
    /// Any type that the contract does not name.
    Other,
}

/// A named, typed column of a dataset.
#[derive(Debug, PartialEq, Eq)]
pub struct Field {
    pub name: String,
    pub dtype: ColumnType,
}

/// A column with its name as characters.
pub struct FieldView {
    pub name: Seq<char>,
    pub dtype: ColumnType,
}

impl View for Field {
    type V = FieldView;

    open spec fn view(&self) -> FieldView {
        FieldView { name: self.name@, dtype: self.dtype }
    }
}

/// How a dataset's schema departs from the one expected of it.
#[derive(Debug, PartialEq, Eq)]
pub enum SchemaMismatch {
    /// A column whose name the expected schema does not hold.
    UnexpectedColumn { name: String, dtype: ColumnType },
    /// A column whose name is expected with another type.
    WrongType { name: String, expected: ColumnType, found: ColumnType },
    /// An expected column that the dataset lacks.
    MissingColumn { name: String, dtype: ColumnType },
}

pub open spec fn field_views(s: Seq<Field>) -> Seq<FieldView> {
    s.map_values(|f: Field| f@)
}

/// The two schemas hold the same (name, type) pairs, in any order.
pub open spec fn same_fields(a: Seq<FieldView>, b: Seq<FieldView>) -> bool {
    forall|f: FieldView| a.contains(f) <==> b.contains(f)
}

/// `a[i]` is the first field of `a` that `b` lacks.
pub open spec fn first_absent(a: Seq<FieldView>, b: Seq<FieldView>, i: int) -> bool {
    &&& 0 <= i < a.len()
    &&& !b.contains(a[i])
    &&& forall|m: int| 0 <= m < i ==> b.contains(#[trigger] a[m])
}

pub open spec fn has_name(s: Seq<FieldView>, n: Seq<char>) -> bool {
    exists|j: int| 0 <= j < s.len() && #[trigger] s[j].name == n
}

/// `s[j]` is the first field of `s` named `n`.
pub open spec fn first_named(s: Seq<FieldView>, n: Seq<char>, j: int) -> bool {
    &&& 0 <= j < s.len()
    &&& s[j].name == n
    &&& forall|m: int| 0 <= m < j ==> #[trigger] s[m].name != n
}

/// The outcome of checking schema `a` against the expected schema `e`: the
/// first column of `a` that `e` lacks is reported, as a wrong type where `e`
/// names it; failing that, the first column of `e` that `a` lacks.
pub open spec fn schema_outcome(
    a: Seq<FieldView>,
    e: Seq<FieldView>,
    r: Result<(), SchemaMismatch>,
) -> bool {
    match r {
        Ok(()) => same_fields(a, e),
        Err(SchemaMismatch::UnexpectedColumn { name, dtype }) => exists|i: int|
            first_absent(a, e, i) && #[trigger] a[i] == FieldView { name: name@, dtype }
                && !has_name(e, name@),
        Err(SchemaMismatch::WrongType { name, expected, found }) => exists|i: int, j: int|
            first_absent(a, e, i) && #[trigger] a[i] == FieldView { name: name@, dtype: found }
                && first_named(e, name@, j) && #[trigger] e[j].dtype == expected,
        Err(SchemaMismatch::MissingColumn { name, dtype }) => (forall|m: int|
            0 <= m < a.len() ==> e.contains(#[trigger] a[m])) && exists|i: int|
            first_absent(e, a, i) && #[trigger] e[i] == FieldView { name: name@, dtype },
    }
}

fn holds_field(s: &Vec<Field>, f: &Field) -> (r: bool)
    ensures
        r == field_views(s@).contains(f@),
{
    let ghost v = field_views(s@);
    let mut k: usize = 0;
    while k < s.len()
        invariant
            k <= s@.len(),
            v == field_views(s@),
            forall|m: int| 0 <= m < k ==> #[trigger] v[m] != f@,
        decreases s@.len() - k,
    {
        if s[k].name == f.name && s[k].dtype == f.dtype {
            assert(v[k as int] == f@);
            return true;
        }
        k = k + 1;
    }
    false
}

fn first_with_name(s: &Vec<Field>, n: &String) -> (r: Option<usize>)
    ensures
        match r {
            Some(j) => first_named(field_views(s@), n@, j as int),
            None => !has_name(field_views(s@), n@),
        },
{
    let ghost v = field_views(s@);
    let mut k: usize = 0;
    while k < s.len()
        invariant
            k <= s@.len(),
            v == field_views(s@),
            forall|m: int| 0 <= m < k ==> #[trigger] v[m].name != n@,
        decreases s@.len() - k,
    {
        if s[k].name == *n {
            return Some(k);
        }
        k = k + 1;
    }
    None
}

/// Checks a dataset's schema against the expected one: it passes exactly
/// when both hold the same named, typed columns, in whatever order.
pub fn validate_schema(actual: &Vec<Field>, expected: &Vec<Field>) -> (r: Result<(), SchemaMismatch>)
    ensures
        r is Ok <==> same_fields(field_views(actual@), field_views(expected@)),
        schema_outcome(field_views(actual@), field_views(expected@), r),
{
    let ghost a = field_views(actual@);
    let ghost e = field_views(expected@);
    let mut i: usize = 0;
    while i < actual.len()
        invariant
            i <= actual@.len(),
            a == field_views(actual@),
            e == field_views(expected@),
            forall|m: int| 0 <= m < i ==> e.contains(#[trigger] a[m]),
        decreases actual@.len() - i,
    {
        let f = &actual[i];
        if !holds_field(expected, f) {
            assert(first_absent(a, e, i as int));
            let name = f.name.clone();
            let found = f.dtype;
            assert(a[i as int] == FieldView { name: name@, dtype: found });
            match first_with_name(expected, &f.name) {
                Some(j) => {
                    let t = expected[j].dtype;
                    assert(e[j as int].dtype == t);
                    return Err(SchemaMismatch::WrongType { name, expected: t, found });
                },
                None => {
                    return Err(SchemaMismatch::UnexpectedColumn { name, dtype: found });
                },
            }
        }
        i = i + 1;
    }
    let mut i: usize = 0;
    while i < expected.len()
        invariant
            i <= expected@.len(),
            a == field_views(actual@),
            e == field_views(expected@),
            forall|m: int| 0 <= m < a.len() ==> e.contains(#[trigger] a[m]),
            forall|m: int| 0 <= m < i ==> a.contains(#[trigger] e[m]),
        decreases expected@.len() - i,
    {
        let f = &expected[i];
        if !holds_field(actual, f) {
            assert(first_absent(e, a, i as int));
            assert(!same_fields(a, e));
            let name = f.name.clone();
            assert(e[i as int] == FieldView { name: name@, dtype: f.dtype });
            return Err(SchemaMismatch::MissingColumn { name, dtype: f.dtype });
        }
        i = i + 1;
    }
    assert forall|f: FieldView| a.contains(f) <==> e.contains(f) by {
        if a.contains(f) {
            let m = choose|m: int| 0 <= m < a.len() && a[m] == f;
        }
        if e.contains(f) {
            let m = choose|m: int| 0 <= m < e.len() && e[m] == f;
        }
    }
    Ok(())
}

fn field(name: &str, dtype: ColumnType) -> (f: Field)
    ensures
        f@ == (FieldView { name: name@, dtype }),
{
    Field { name: String::from_str(name), dtype }
}

/// The columns of a general-ledger dataset.
pub fn gl_schema() -> (r: Vec<Field>)
    ensures
        field_views(r@) == seq![
            FieldView { name: "Business_Unit_Code"@, dtype: ColumnType::Str },
            FieldView { name: "Doc_Number"@, dtype: ColumnType::Str },
            FieldView { name: "Fiscal_Year"@, dtype: ColumnType::Str },
            FieldView { name: "Line_Number"@, dtype: ColumnType::Str },
            FieldView { name: "Effective_Date"@, dtype: ColumnType::Str },
            FieldView { name: "Account_Number"@, dtype: ColumnType::Str },
            FieldView { name: "Local_Amount"@, dtype: ColumnType::Float64 },
            FieldView { name: "Journal_ID"@, dtype: ColumnType::Str },
        ],
{
    let r = vec![
        field("Business_Unit_Code", ColumnType::Str),
        field("Doc_Number", ColumnType::Str),
        field("Fiscal_Year", ColumnType::Str),
        field("Line_Number", ColumnType::Str),
        field("Effective_Date", ColumnType::Str),
        field("Account_Number", ColumnType::Str),
        field("Local_Amount", ColumnType::Float64),
        field("Journal_ID", ColumnType::Str),
    ];
    assert(field_views(r@) =~= seq![
        FieldView { name: "Business_Unit_Code"@, dtype: ColumnType::Str },
        FieldView { name: "Doc_Number"@, dtype: ColumnType::Str },
        FieldView { name: "Fiscal_Year"@, dtype: ColumnType::Str },
        FieldView { name: "Line_Number"@, dtype: ColumnType::Str },
        FieldView { name: "Effective_Date"@, dtype: ColumnType::Str },
        FieldView { name: "Account_Number"@, dtype: ColumnType::Str },
        FieldView { name: "Local_Amount"@, dtype: ColumnType::Float64 },
        FieldView { name: "Journal_ID"@, dtype: ColumnType::Str },
    ]);
    r
}

/// The columns of a trial-balance dataset.
pub fn tb_schema() -> (r: Vec<Field>)
    ensures
        field_views(r@) == seq![
            FieldView { name: "Business_Unit_Code"@, dtype: ColumnType::Str },
            FieldView { name: "Fiscal_Year"@, dtype: ColumnType::Str },
            FieldView { name: "Account_Number"@, dtype: ColumnType::Str },
            FieldView { name: "Amount_Opening_Balance"@, dtype: ColumnType::Float64 },
            FieldView { name: "Amount_Ending_Balance"@, dtype: ColumnType::Float64 },
        ],
{
    let r = vec![
        field("Business_Unit_Code", ColumnType::Str),
        field("Fiscal_Year", ColumnType::Str),
        field("Account_Number", ColumnType::Str),
        field("Amount_Opening_Balance", ColumnType::Float64),
        field("Amount_Ending_Balance", ColumnType::Float64),
    ];
    assert(field_views(r@) =~= seq![
        FieldView { name: "Business_Unit_Code"@, dtype: ColumnType::Str },
        FieldView { name: "Fiscal_Year"@, dtype: ColumnType::Str },
        FieldView { name: "Account_Number"@, dtype: ColumnType::Str },
        FieldView { name: "Amount_Opening_Balance"@, dtype: ColumnType::Float64 },
        FieldView { name: "Amount_Ending_Balance"@, dtype: ColumnType::Float64 },
    ]);
    r
}

} // verus!
