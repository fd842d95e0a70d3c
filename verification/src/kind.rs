//! The kinds of column in a QVD and the DuckDB types that they are read as.

use vstd::prelude::*;

verus! {

/// The category of a column.
#[derive(Clone, Copy, Debug, PartialEq, Eq, Structural)]
pub enum Kind {
    Int,
    Float,
    Text,
    Date,
    Timestamp,
    Time,
    Interval,
}

/// The DuckDB types that columns are read as.
#[derive(Clone, Copy, Debug, PartialEq, Eq, Structural)]
pub enum LogicalTypeId {
    Bigint,
    Double,
    Varchar,
    Date,
    Timestamp,
    Time,
    Interval,
}

impl Kind {
    /// The DuckDB type that a column of this kind is read as.
    pub open spec fn spec_type_id(self) -> LogicalTypeId {
        match self {
            Kind::Int => LogicalTypeId::Bigint,
            Kind::Float => LogicalTypeId::Double,
            Kind::Text => LogicalTypeId::Varchar,
            Kind::Date => LogicalTypeId::Date,
            Kind::Timestamp => LogicalTypeId::Timestamp,
            Kind::Time => LogicalTypeId::Time,
            Kind::Interval => LogicalTypeId::Interval,
        }
    }

    /// The DuckDB type that a column of this kind is read as.
    pub fn type_id(self) -> (r: LogicalTypeId)
        ensures
            r == self.spec_type_id(),
    {
        match self {
            Kind::Int => LogicalTypeId::Bigint,
            Kind::Float => LogicalTypeId::Double,
            Kind::Text => LogicalTypeId::Varchar,
            Kind::Date => LogicalTypeId::Date,
            Kind::Timestamp => LogicalTypeId::Timestamp,
            Kind::Time => LogicalTypeId::Time,
            Kind::Interval => LogicalTypeId::Interval,
        }
    }
}

/// What the header of a QVD says of one field, as far as reading depends on it.
#[derive(Clone, Debug)]
pub struct FieldHeader {
    /// The name of the field.
    pub field_name: String,
    /// The Qlik tags of the field.
    pub tags: Vec<String>,
    /// The content of the `<Type>` element of the number format.
    pub format_type: String,
}

/// The texts in a list of strings.
pub open spec fn texts(list: Seq<String>) -> Seq<Seq<char>> {
    list.map_values(|s: String| s@)
}

/// The kind of a field with the given tags and `<Type>`.
///
/// The tags decide, in this order; where none of them is known, the `<Type>` of the same
/// meaning does; a field of unknown type is text.
pub open spec fn kind_for(tags: Seq<Seq<char>>, format_type: Seq<char>) -> Kind {
    if tags.contains("$date"@) {
        Kind::Date
    } else if tags.contains("$timestamp"@) {
        Kind::Timestamp
    } else if tags.contains("$time"@) {
        Kind::Time
    } else if tags.contains("$interval"@) {
        Kind::Interval
    } else if tags.contains("$text"@) || tags.contains("$ascii"@) {
        Kind::Text
    } else if tags.contains("$integer"@) {
        Kind::Int
    } else if tags.contains("$numeric"@) {
        Kind::Float
    } else if format_type == "INTEGER"@ {
        Kind::Int
    } else if format_type == "REAL"@ || format_type == "FIX"@ || format_type == "MONEY"@ {
        Kind::Float
    } else if format_type == "DATE"@ {
        Kind::Date
    } else if format_type == "TIMESTAMP"@ {
        Kind::Timestamp
    } else if format_type == "TIME"@ {
        Kind::Time
    } else if format_type == "INTERVAL"@ {
        Kind::Interval
    } else {
        Kind::Text
    }
}

/// Whether two texts are equal.
pub fn same_text(a: &String, b: &str) -> (r: bool)
    ensures
        r == (a@ == b@),
{
    let other: String = b.to_owned();
    *a == other
}

/// Whether a tag is among those of a field.
fn has_tag(tags: &Vec<String>, tag: &str) -> (r: bool)
    ensures
        r == texts(tags@).contains(tag@),
{
    let wanted: String = tag.to_owned();
    let mut i: usize = 0;
    while i < tags.len()
        invariant
            i <= tags@.len(),
            wanted@ == tag@,
            forall|j: int| 0 <= j < i ==> texts(tags@)[j] != tag@,
        decreases tags@.len() - i,
    {
        if tags[i] == wanted {
            assert(texts(tags@)[i as int] == tag@);
            return true;
        }
        i = i + 1;
    }
    false
}

/// The kind of a field, by its Qlik tags and, where these say nothing, by its `<Type>`.
pub fn kind_of_field(f: &FieldHeader) -> (r: Kind)
    ensures
        r == kind_for(texts(f.tags@), f.format_type@),
{
    if has_tag(&f.tags, "$date") {
        return Kind::Date;
    }
    if has_tag(&f.tags, "$timestamp") {
        return Kind::Timestamp;
    }
    if has_tag(&f.tags, "$time") {
        return Kind::Time;
    }
    if has_tag(&f.tags, "$interval") {
        return Kind::Interval;
    }
    if has_tag(&f.tags, "$text") || has_tag(&f.tags, "$ascii") {
        return Kind::Text;
    }
    if has_tag(&f.tags, "$integer") {
        return Kind::Int;
    }
    if has_tag(&f.tags, "$numeric") {
        return Kind::Float;
    }
    let t: &String = &f.format_type;
    if same_text(t, "INTEGER") {
        Kind::Int
    } else if same_text(t, "REAL") || same_text(t, "FIX") || same_text(t, "MONEY") {
        Kind::Float
    } else if same_text(t, "DATE") {
        Kind::Date
    } else if same_text(t, "TIMESTAMP") {
        Kind::Timestamp
    } else if same_text(t, "TIME") {
        Kind::Time
    } else if same_text(t, "INTERVAL") {
        Kind::Interval
    } else {
        Kind::Text
    }
}

/// The columns of a QVD: their names, kinds and DuckDB types.
#[derive(Clone, Debug)]
pub struct Schema {
    pub names: Vec<String>,
    pub kinds: Vec<Kind>,
    pub type_ids: Vec<LogicalTypeId>,
}

/// The schema that the fields of a header give, in their order.
pub fn read_schema(fields: &Vec<FieldHeader>) -> (r: Schema)
    ensures
        r.names@.len() == fields@.len(),
        r.kinds@.len() == fields@.len(),
        r.type_ids@.len() == fields@.len(),
        forall|i: int|
            0 <= i < fields@.len() ==> {
                &&& (#[trigger] r.names@[i])@ == fields@[i].field_name@
                &&& r.kinds@[i] == kind_for(texts(fields@[i].tags@), fields@[i].format_type@)
                &&& r.type_ids@[i] == r.kinds@[i].spec_type_id()
            },
{
    let mut names: Vec<String> = Vec::new();
    let mut kinds: Vec<Kind> = Vec::new();
    let mut type_ids: Vec<LogicalTypeId> = Vec::new();
    let mut i: usize = 0;
    while i < fields.len()
        invariant
            i <= fields@.len(),
            names@.len() == i,
            kinds@.len() == i,
            type_ids@.len() == i,
            forall|j: int| 0 <= j < i ==> (#[trigger] names@[j])@ == fields@[j].field_name@,
            forall|j: int|
                0 <= j < i ==> #[trigger] kinds@[j] == kind_for(
                    texts(fields@[j].tags@),
                    fields@[j].format_type@,
                ),
            forall|j: int| 0 <= j < i ==> #[trigger] type_ids@[j] == kinds@[j].spec_type_id(),
        decreases fields@.len() - i,
    {
        let f: &FieldHeader = &fields[i];
        let kind: Kind = kind_of_field(f);
        names.push(f.field_name.clone());
        type_ids.push(kind.type_id());
        kinds.push(kind);
        i = i + 1;
    }
    Schema { names, kinds, type_ids }
}

/// A list of strings and the list of their texts have the same length and agree in every
/// place.
pub proof fn lemma_texts_of_strings(list: Seq<String>)
    ensures
        texts(list).len() == list.len(),
        forall|i: int| 0 <= i < list.len() ==> #[trigger] texts(list)[i] == list[i]@,
{
}

/// A column is read as `BIGINT`, `DOUBLE`, `VARCHAR`, `DATE`, `TIMESTAMP`, `TIME` or
/// `INTERVAL` exactly where it is of the kind with that meaning.
pub proof fn lemma_kinds_and_types(kind: Kind)
    ensures
        kind.spec_type_id() is Bigint <==> kind is Int,
        kind.spec_type_id() is Double <==> kind is Float,
        kind.spec_type_id() is Varchar <==> kind is Text,
        kind.spec_type_id() is Date <==> kind is Date,
        kind.spec_type_id() is Timestamp <==> kind is Timestamp,
        kind.spec_type_id() is Time <==> kind is Time,
        kind.spec_type_id() is Interval <==> kind is Interval,
{
}

/// A field tagged as a date is a date whatever other tags it has; without that, one tagged
/// as a timestamp is a timestamp whatever other tags it has; then come times, durations,
/// texts, whole numbers and other numbers. The `<Type>` does not matter.
pub proof fn lemma_tags_decide_in_order(tags: Seq<Seq<char>>, format_type: Seq<char>)
    ensures
        tags.contains("$date"@) ==> kind_for(tags, format_type) == Kind::Date,
        tags.contains("$timestamp"@) && !tags.contains("$date"@) ==> kind_for(tags, format_type)
            == Kind::Timestamp,
        tags.contains("$time"@) && !tags.contains("$date"@) && !tags.contains("$timestamp"@)
            ==> kind_for(tags, format_type) == Kind::Time,
        tags.contains("$interval"@) && !tags.contains("$date"@) && !tags.contains("$timestamp"@)
            && !tags.contains("$time"@) ==> kind_for(tags, format_type) == Kind::Interval,
        tags.contains("$text"@) && !tags.contains("$date"@) && !tags.contains("$timestamp"@)
            && !tags.contains("$time"@) && !tags.contains("$interval"@) ==> kind_for(
            tags,
            format_type,
        ) == Kind::Text,
        tags.contains("$ascii"@) && !tags.contains("$date"@) && !tags.contains("$timestamp"@)
            && !tags.contains("$time"@) && !tags.contains("$interval"@) ==> kind_for(
            tags,
            format_type,
        ) == Kind::Text,
        tags.contains("$integer"@) && !tags.contains("$date"@) && !tags.contains("$timestamp"@)
            && !tags.contains("$time"@) && !tags.contains("$interval"@) && !tags.contains("$text"@)
            && !tags.contains("$ascii"@) ==> kind_for(tags, format_type) == Kind::Int,
        tags.contains("$numeric"@) && !tags.contains("$date"@) && !tags.contains("$timestamp"@)
            && !tags.contains("$time"@) && !tags.contains("$interval"@) && !tags.contains("$text"@)
            && !tags.contains("$ascii"@) && !tags.contains("$integer"@) ==> kind_for(
            tags,
            format_type,
        ) == Kind::Float,
{
}

/// Whether a tag is one that gives a field its kind.
pub open spec fn is_known_tag(tag: Seq<char>) -> bool {
    ||| tag == "$date"@
    ||| tag == "$timestamp"@
    ||| tag == "$time"@
    ||| tag == "$interval"@
    ||| tag == "$text"@
    ||| tag == "$ascii"@
    ||| tag == "$integer"@
    ||| tag == "$numeric"@
}

/// The `<Type>` decides for a field without a tag that gives it a kind: a field with the
/// name of a type of numbers, dates, times or durations is of that kind, and any other one
/// is text.
pub proof fn lemma_type_decides_without_tags(tags: Seq<Seq<char>>, format_type: Seq<char>)
    requires
        !tags.contains("$date"@),
        !tags.contains("$timestamp"@),
        !tags.contains("$time"@),
        !tags.contains("$interval"@),
        !tags.contains("$text"@),
        !tags.contains("$ascii"@),
        !tags.contains("$integer"@),
        !tags.contains("$numeric"@),
    ensures
        kind_for(tags, format_type) is Int <==> format_type == "INTEGER"@,
        kind_for(tags, format_type) is Float <==> format_type == "REAL"@ || format_type == "FIX"@
            || format_type == "MONEY"@,
        kind_for(tags, format_type) is Date <==> format_type == "DATE"@,
        kind_for(tags, format_type) is Timestamp <==> format_type == "TIMESTAMP"@,
        kind_for(tags, format_type) is Time <==> format_type == "TIME"@,
        kind_for(tags, format_type) is Interval <==> format_type == "INTERVAL"@,
{
    reveal_strlit("INTEGER");
    reveal_strlit("REAL");
    reveal_strlit("FIX");
    reveal_strlit("MONEY");
    reveal_strlit("DATE");
    reveal_strlit("TIMESTAMP");
    reveal_strlit("TIME");
    reveal_strlit("INTERVAL");
    assert("INTEGER"@.len() == 7 && "REAL"@.len() == 4 && "FIX"@.len() == 3 && "MONEY"@.len() == 5
        && "DATE"@.len() == 4 && "TIMESTAMP"@.len() == 9 && "TIME"@.len() == 4 && "INTERVAL"@.len()
        == 8);
    assert("REAL"@[0] == 'R' && "DATE"@[0] == 'D' && "TIME"@[0] == 'T');
}

/// Neither the order of the tags nor a tag without a meaning makes a difference.
pub proof fn lemma_order_of_tags_does_not_matter(
    a: Seq<Seq<char>>,
    b: Seq<Seq<char>>,
    other: Seq<char>,
    format_type: Seq<char>,
)
    requires
        !is_known_tag(other),
    ensures
        kind_for(a + b, format_type) == kind_for(b + a, format_type),
        kind_for(a.push(other), format_type) == kind_for(a, format_type),
{
    assert forall|tag: Seq<char>| #[trigger] (a + b).contains(tag) == (b + a).contains(tag) by {
        lemma_in_both(a, b, tag);
        lemma_in_both(b, a, tag);
    }
    assert forall|tag: Seq<char>| tag != other implies #[trigger] a.push(other).contains(tag)
        == a.contains(tag) by {
        if a.contains(tag) {
            let i = choose|i: int| 0 <= i < a.len() && a[i] == tag;
            assert(a.push(other)[i] == tag);
        }
    }
}

/// What two lists hold together.
proof fn lemma_in_both(a: Seq<Seq<char>>, b: Seq<Seq<char>>, tag: Seq<char>)
    ensures
        (a + b).contains(tag) == (a.contains(tag) || b.contains(tag)),
{
    if a.contains(tag) {
        let i = choose|i: int| 0 <= i < a.len() && a[i] == tag;
        assert((a + b)[i] == tag);
    }
    if b.contains(tag) {
        let i = choose|i: int| 0 <= i < b.len() && b[i] == tag;
        assert((a + b)[a.len() + i] == tag);
    }
}

} // verus!
