//! Table descriptors, rows, and the validation of a row against a schema.
use vstd::prelude::*;
use crate::assoc::{has_key, keys_unique, lemma_map, to_map, find_key};
use crate::value::{Data, Type, tag_of, data_eq_type};

verus! {

/// A field slot: a value and a free-form auxiliary text that travels with it.
pub type Slot = (Data, String);

/// A row: field name to slot, with distinct names.
pub type Row = Vec<(String, Slot)>;

/// A schema entry: a type tag and a pattern, empty for "no constraint".
pub type FieldSpec = (Type, String);

/// Errors of the library.
#[derive(Clone, Copy, Debug, PartialEq, Eq, Structural)]
pub enum DbError {
    /// The row does not conform to the schema.
    SchemaMismatch,
    /// A field of the schema is absent from the row.
    MissingField,
    /// The value of the id column is not a text.
    IdNotText,
    /// A row with the same id exists and overwriting was not asked for.
    IdConflict,
    /// No row, table or field of that name.
    NotFound,
    /// The id column is not among the fields, or is the target of a
    /// change that it cannot take.
    IdColumn,
    /// A table of that name exists already.
    TableExists,
    /// A type name or a default value that is not supported.
    Unsupported,
    /// Reading or writing the store failed.
    Io,
    /// Stored content could not be decoded.
    Format,
}

/// A table descriptor.
#[derive(Debug)]
pub struct TABLE {
    pub name: String,
    pub id_column: String,
    pub field_names: Vec<(String, FieldSpec)>,
}

impl TABLE {
    /// Field names are distinct.
    pub open spec fn wf(&self) -> bool {
        keys_unique(self.field_names@)
    }

    /// The field map of the schema.
    pub open spec fn fields(&self) -> Map<Seq<char>, FieldSpec> {
        to_map(self.field_names@)
    }
}

/// Whether a regular expression compiles.
pub uninterp spec fn pattern_valid(p: Seq<char>) -> bool;

/// Whether a compiled regular expression matches somewhere in a text.
pub uninterp spec fn pattern_matches(p: Seq<char>, t: Seq<char>) -> bool;

/// Relies on regex's `Regex::new`, which fails on an invalid pattern, and
/// `Regex::is_match`, which tells whether the pattern matches anywhere in
/// the text.
#[verifier::external_body]
fn regex_match(p: &str, t: &str) -> (r: Option<bool>)
    ensures
        r is None <==> !pattern_valid(p@),
        r matches Some(b) ==> b == pattern_matches(p@, t@),
{
    match regex::Regex::new(p) {
        Ok(re) => Some(re.is_match(t)),
        Err(_) => None,
    }
}

/// Whether the slot of schema field `f` has its pattern to meet: the
/// pattern is non-empty and the value is a text.
pub open spec fn pattern_applies(row: Map<Seq<char>, Slot>, f: (String, FieldSpec)) -> bool {
    f.1.1@.len() > 0 && row[f.0@].0 is STRING
}

/// Whether the text of schema field `f` meets its pattern: the pattern
/// compiles and matches it.
pub open spec fn pattern_met(row: Map<Seq<char>, Slot>, f: (String, FieldSpec)) -> bool {
    pattern_valid(f.1.1@) && pattern_matches(f.1.1@, row[f.0@].0->STRING_0@)
}

/// The outcome of validating a row against the fields of a schema. A row
/// with another number of fields fails; a schema field absent from the row
/// is an error; then every value must carry its declared tag, and every text
/// with a declared pattern must match it. A pattern that does not compile
/// matches nothing, so the check fails closed.
pub open spec fn validation(
    row: Seq<(String, Slot)>,
    fields: Seq<(String, FieldSpec)>,
) -> Result<bool, DbError> {
    let m = to_map(row);
    if row.len() != fields.len() {
        Ok(false)
    } else if exists|i: int| 0 <= i < fields.len() && !has_key(row, #[trigger] fields[i].0@) {
        Err(DbError::MissingField)
    } else if exists|i: int|
        0 <= i < fields.len() && tag_of(m[#[trigger] fields[i].0@].0) != fields[i].1.0 {
        Ok(false)
    } else {
        Ok(
            forall|i: int|
                0 <= i < fields.len() && pattern_applies(m, #[trigger] fields[i]) ==> pattern_met(
                    m,
                    fields[i],
                ),
        )
    }
}

/// Whether a row conforms to a schema.
pub open spec fn conforms(row: Seq<(String, Slot)>, schema: TABLE) -> bool {
    validation(row, schema.field_names@) == Ok::<bool, DbError>(true)
}

/// Validates a row against a schema.
pub fn check_type_regex(row: &Row, types: &TABLE) -> (r: Result<bool, DbError>)
    requires
        keys_unique(row@),
    ensures
        r == validation(row@, types.field_names@),
{
    let fields = &types.field_names;
    let ghost m = to_map(row@);
    proof {
        lemma_map(row@);
    }
    if row.len() != fields.len() {
        return Ok(false);
    }
    let mut i: usize = 0;
    while i < fields.len()
        invariant
            0 <= i <= fields@.len(),
            row@.len() == fields@.len(),
            fields@ == types.field_names@,
            forall|j: int| 0 <= j < i ==> has_key(row@, #[trigger] fields@[j].0@),
        decreases fields.len() - i,
    {
        if find_key(row, fields[i].0.as_str()).is_none() {
            assert(!has_key(row@, fields@[i as int].0@));
            return Err(DbError::MissingField);
        }
        i = i + 1;
    }
    let mut i: usize = 0;
    while i < fields.len()
        invariant
            forall|j: int| 0 <= j < fields@.len() ==> has_key(row@, #[trigger] fields@[j].0@),
            0 <= i <= fields@.len(),
            row@.len() == fields@.len(),
            fields@ == types.field_names@,
            keys_unique(row@),
            m == to_map(row@),
            forall|j: int| 0 <= j < i ==> tag_of(m[#[trigger] fields@[j].0@].0) == fields@[j].1.0,
        decreases fields.len() - i,
    {
        let k = find_key(row, fields[i].0.as_str());
        match k {
            Some(p) => {
                proof {
                    lemma_map(row@);
                    assert(m[fields@[i as int].0@] == row@[p as int].1);
                }
                if !data_eq_type(&row[p].1.0, &fields[i].1.0) {
                    assert(tag_of(m[fields@[i as int].0@].0) != fields@[i as int].1.0);
                    return Ok(false);
                }
            },
            None => {},
        }
        i = i + 1;
    }
    let mut failed = false;
    let mut i: usize = 0;
    while i < fields.len()
        invariant
            forall|j: int| 0 <= j < fields@.len() ==> has_key(row@, #[trigger] fields@[j].0@),
            forall|j: int|
                0 <= j < fields@.len() ==> tag_of(m[#[trigger] fields@[j].0@].0) == fields@[j].1.0,
            0 <= i <= fields@.len(),
            row@.len() == fields@.len(),
            fields@ == types.field_names@,
            keys_unique(row@),
            m == to_map(row@),
            failed == exists|j: int|
                0 <= j < i && pattern_applies(m, #[trigger] fields@[j]) && !pattern_met(
                    m,
                    fields@[j],
                ),
        decreases fields.len() - i,
    {
        let k = find_key(row, fields[i].0.as_str());
        match k {
            Some(p) => {
                proof {
                    lemma_map(row@);
                    assert(m[fields@[i as int].0@] == row@[p as int].1);
                }
                if fields[i].1.1.as_str().unicode_len() > 0 {
                    match &row[p].1.0 {
                        Data::STRING(s) => {
                            match regex_match(fields[i].1.1.as_str(), s.as_str()) {
                                None => {
                                    failed = true;
                                    assert(pattern_applies(m, fields@[i as int]));
                                },
                                Some(b) => {
                                    if !b {
                                        failed = true;
                                    }
                                    assert(pattern_applies(m, fields@[i as int]));
                                },
                            }
                        },
                        _ => {},
                    }
                }
            },
            None => {},
        }
        i = i + 1;
    }
    Ok(!failed)
}

} // verus!
