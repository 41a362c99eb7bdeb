//! The field registry of the query engine: the known field names, built from
//! the configuration, and the checks of column, filter and sort names and of
//! filter values.
use crate::model::{
    parse_u32, priority_of, read_u32, same_text, texts, Config, Filter, Operator, Priority,
};
use crate::text::{chars_of, pieces, split_commas, string_of};
use vstd::prelude::*;

verus! {

/// Where a field name came from.
#[derive(Clone, Copy, Debug, PartialEq, Eq, Structural)]
pub enum FieldContext {
    Columns,
    DefaultColumns,
    Filter,
    Sort,
}

/// Which kind of filter value failed to read.
#[derive(Clone, Copy, Debug, PartialEq, Eq, Structural)]
pub enum ValueKind {
    Id,
    Priority,
    Date,
}

/// Why a query was refused.
#[derive(Clone, Debug)]
pub enum QueryError {
    /// A column, filter or sort name that is not a known field.
    InvalidField { context: FieldContext, name: String },
    /// A filter value that does not read as its field's type.
    InvalidValue(ValueKind),
    /// `>` or `<` on a field without an order.
    UnsupportedOperator(String),
}

/// The content of a `QueryError`.
pub ghost enum QueryFault {
    InvalidField(FieldContext, Seq<char>),
    InvalidValue(ValueKind),
    UnsupportedOperator(Seq<char>),
}

pub open spec fn query_fault(e: QueryError) -> QueryFault {
    match e {
        QueryError::InvalidField { context, name } => QueryFault::InvalidField(context, name@),
        QueryError::InvalidValue(k) => QueryFault::InvalidValue(k),
        QueryError::UnsupportedOperator(f) => QueryFault::UnsupportedOperator(f@),
    }
}

impl FieldContext {
    /// The name under which the user gave the field.
    pub fn label(&self) -> String {
        match self {
            FieldContext::Columns => String::from_str("--columns"),
            FieldContext::DefaultColumns => String::from_str("config.yaml:list_columns"),
            FieldContext::Filter => String::from_str("--filter"),
            FieldContext::Sort => String::from_str("--sort"),
        }
    }
}

impl QueryError {
    /// A message that describes the error.
    pub fn message(&self) -> String {
        match self {
            QueryError::InvalidField { context, name } => String::from_str(
                "Invalid column name in ",
            ).concat(context.label().as_str()).concat(": ").concat(name.as_str()),
            QueryError::InvalidValue(ValueKind::Id) => String::from_str("ID must be an integer"),
            QueryError::InvalidValue(ValueKind::Priority) => String::from_str(
                "Invalid priority value",
            ),
            QueryError::InvalidValue(ValueKind::Date) => String::from_str(
                "Invalid due_date format: Use 'YYYY-MM-DD'",
            ),
            QueryError::UnsupportedOperator(f) => String::from_str(
                "Operator '>' and '<' not supported for field: ",
            ).concat(f.as_str()),
        }
    }
}

/// The fields every issue has, in display order, before the relationship types.
pub open spec fn intrinsic() -> Seq<Seq<char>> {
    seq![
        "id"@,
        "title"@,
        "state"@,
        "type"@,
        "labels"@,
        "reporter"@,
        "assignee"@,
        "priority"@,
        "due_date"@,
    ]
}

/// The names of the configured relationship types, in configured order.
pub open spec fn relationship_names(cfg: Config) -> Seq<Seq<char>> {
    cfg.relationships@.map_values(|p: (String, crate::model::Relationship)| p.0@)
}

/// Every known column: the intrinsic fields, the relationship types, then the timestamps.
pub open spec fn all_columns(cfg: Config) -> Seq<Seq<char>> {
    intrinsic() + relationship_names(cfg) + seq!["created"@, "updated"@]
}

/// The canonical name of a field: `due-date` is another name of `due_date`.
pub open spec fn alias(f: Seq<char>) -> Seq<char> {
    if f == "due-date"@ {
        "due_date"@
    } else {
        f
    }
}

/// Whether `f` names a field; `description` only where filters allow it.
pub open spec fn known(cfg: Config, f: Seq<char>, description: bool) -> bool {
    all_columns(cfg).contains(f) || (description && f == "description"@)
}

fn push_text(v: &mut Vec<String>, s: &str)
    ensures
        final(v)@.len() == old(v)@.len() + 1,
        forall|i: int| 0 <= i < old(v)@.len() ==> final(v)@[i] == old(v)@[i],
        final(v)@.last()@ == s@,
{
    v.push(String::from_str(s));
}

/// Every known column, in display order.
pub fn get_all_column_names(config: &Config) -> (r: Vec<String>)
    ensures
        texts(r@) == all_columns(*config),
{
    let mut r: Vec<String> = Vec::new();
    push_text(&mut r, "id");
    push_text(&mut r, "title");
    push_text(&mut r, "state");
    push_text(&mut r, "type");
    push_text(&mut r, "labels");
    push_text(&mut r, "reporter");
    push_text(&mut r, "assignee");
    push_text(&mut r, "priority");
    push_text(&mut r, "due_date");
    assert(texts(r@) =~= intrinsic());
    let rs = &config.relationships;
    let mut i: usize = 0;
    while i < rs.len()
        invariant
            i <= rs@.len(),
            rs@ == config.relationships@,
            texts(r@) == intrinsic() + relationship_names(*config).subrange(0, i as int),
        decreases rs@.len() - i,
    {
        let ghost before = r@;
        r.push(rs[i].0.clone());
        i = i + 1;
        assert(texts(r@) =~= intrinsic() + relationship_names(*config).subrange(0, i as int)) by {
            assert(texts(r@) =~= texts(before).push(rs@[i - 1].0@));
        }
    }
    assert(relationship_names(*config).subrange(0, i as int) =~= relationship_names(*config));
    let ghost mid = r@;
    push_text(&mut r, "created");
    push_text(&mut r, "updated");
    assert(texts(r@) =~= texts(mid) + seq!["created"@, "updated"@]);
    r
}

/// The canonical name of a field.
pub fn normalize_alias(f: &str) -> (r: String)
    ensures
        r@ == alias(f@),
{
    if same_text(f, "due-date") {
        String::from_str("due_date")
    } else {
        String::from_str(f)
    }
}

/// Whether `f` names a field.
pub fn is_known(config: &Config, all: &Vec<String>, f: &str, description: bool) -> (r: bool)
    requires
        texts(all@) == all_columns(*config),
    ensures
        r == known(*config, f@, description),
{
    let mut i: usize = 0;
    while i < all.len()
        invariant
            i <= all@.len(),
            texts(all@) == all_columns(*config),
            forall|j: int| 0 <= j < i ==> (#[trigger] all@[j])@ != f@,
        decreases all@.len() - i,
    {
        if same_text(all[i].as_str(), f) {
            assert(texts(all@)[i as int] == f@);
            return true;
        }
        i = i + 1;
    }
    assert(!all_columns(*config).contains(f@)) by {
        if all_columns(*config).contains(f@) {
            let j = choose|j: int| 0 <= j < all_columns(*config).len() && all_columns(*config)[j] == f@;
            assert(texts(all@)[j] == all@[j]@);
        }
    }
    description && same_text(f, "description")
}

/// The first of `names` that, in canonical form, is not a known field; -1 when all are.
pub open spec fn first_unknown(cfg: Config, names: Seq<Seq<char>>, description: bool) -> int
    decreases names.len(),
{
    if names.len() == 0 {
        -1
    } else {
        let i = first_unknown(cfg, names.drop_last(), description);
        if i >= 0 {
            i
        } else if !known(cfg, alias(names.last()), description) {
            names.len() - 1
        } else {
            -1
        }
    }
}

pub proof fn lemma_first_unknown_prefix(cfg: Config, names: Seq<Seq<char>>, description: bool, k: int)
    requires
        0 <= k < names.len(),
        first_unknown(cfg, names.subrange(0, k), description) < 0,
    ensures
        first_unknown(cfg, names.subrange(0, k + 1), description) == if known(
            cfg,
            alias(names[k]),
            description,
        ) {
            -1
        } else {
            k
        },
{
    assert(names.subrange(0, k + 1).drop_last() =~= names.subrange(0, k));
}

/// Puts the names in canonical form; fails with the first that is not a known field.
pub fn resolve_fields(config: &Config, names: &Vec<String>, context: FieldContext) -> (r: Result<
    Vec<String>,
    QueryError,
>)
    ensures
        match r {
            Ok(v) => first_unknown(*config, texts(names@), context == FieldContext::Filter) < 0
                && texts(v@) == texts(names@).map_values(|f: Seq<char>| alias(f)),
            Err(e) => first_unknown(*config, texts(names@), context == FieldContext::Filter) >= 0
                && query_fault(e) == QueryFault::InvalidField(
                context,
                alias(
                    texts(names@)[first_unknown(
                        *config,
                        texts(names@),
                        context == FieldContext::Filter,
                    )],
                ),
            ),
        },
{
    let all = get_all_column_names(config);
    let description = context == FieldContext::Filter;
    let ghost ns = texts(names@);
    let mut out: Vec<String> = Vec::new();
    let mut k: usize = 0;
    while k < names.len()
        invariant
            k <= names@.len(),
            ns == texts(names@),
            texts(all@) == all_columns(*config),
            description == (context == FieldContext::Filter),
            first_unknown(*config, ns.subrange(0, k as int), description) < 0,
            texts(out@) == ns.subrange(0, k as int).map_values(|f: Seq<char>| alias(f)),
        decreases names@.len() - k,
    {
        proof {
            lemma_first_unknown_prefix(*config, ns, description, k as int);
        }
        let f = normalize_alias(names[k].as_str());
        if !is_known(config, &all, f.as_str(), description) {
            proof {
                assert(ns.subrange(0, k + 1) =~= ns.subrange(0, k + 1));
                lemma_first_unknown_extend(*config, ns, description, k + 1);
            }
            return Err(QueryError::InvalidField { context, name: f });
        }
        let ghost before = out@;
        out.push(f);
        k = k + 1;
        assert(texts(out@) =~= ns.subrange(0, k as int).map_values(|f: Seq<char>| alias(f))) by {
            assert(texts(out@) =~= texts(before).push(alias(ns[k - 1])));
        }
    }
    assert(ns.subrange(0, k as int) =~= ns);
    Ok(out)
}

/// An unknown name in a prefix stays the first unknown name of the whole list.
pub proof fn lemma_first_unknown_extend(cfg: Config, names: Seq<Seq<char>>, description: bool, k: int)
    requires
        0 <= k <= names.len(),
        first_unknown(cfg, names.subrange(0, k), description) >= 0,
    ensures
        first_unknown(cfg, names, description) == first_unknown(
            cfg,
            names.subrange(0, k),
            description,
        ),
    decreases names.len() - k,
{
    if k < names.len() {
        assert(names.subrange(0, k + 1).drop_last() =~= names.subrange(0, k));
        lemma_first_unknown_extend(cfg, names, description, k + 1);
    } else {
        assert(names.subrange(0, k) =~= names);
    }
}

/// What a Gt or Lt filter may compare.
pub open spec fn ordered_field(f: Seq<char>) -> bool {
    f == "id"@ || f == "priority"@ || f == "due_date"@ || f == "created"@ || f == "updated"@
}

/// What `chrono::NaiveDate::parse_from_str` with `%Y-%m-%d` accepts: a calendar date.
pub uninterp spec fn iso_date(s: Seq<char>) -> bool;

/// Relies on `chrono::NaiveDate::parse_from_str` with the format `%Y-%m-%d`:
/// whether it reads a valid calendar date.
#[verifier::external_body]
fn parses_as_date(s: &str) -> (r: bool)
    ensures
        r == iso_date(s@),
{
    chrono::NaiveDate::parse_from_str(s, "%Y-%m-%d").is_ok()
}

/// Whether `s` is empty or a calendar date written `YYYY-MM-DD`.
pub fn is_valid_iso_date(s: &str) -> (r: bool)
    ensures
        r == (s@.len() == 0 || iso_date(s@)),
{
    s.is_empty() || parses_as_date(s)
}

/// A filter as plain values: field, operator, value.
pub type FilterView = (Seq<char>, Operator, Seq<char>);

/// A filter with its field in canonical form.
pub open spec fn filter_view(f: Filter) -> FilterView {
    (alias(f.field@), f.operator, f.value@)
}

pub open spec fn filter_views(fs: Seq<Filter>) -> Seq<FilterView> {
    fs.map_values(|f: Filter| filter_view(f))
}

/// The fault of a filter: a value of the wrong type (each comma separated
/// piece of an `id` or `priority` value is read; the bound of `>` or `<` on
/// `due_date` is read as a calendar date), or `>`/`<` on a field without an
/// order. Timestamp bounds on `created` and `updated` compare as text.
pub open spec fn filter_fault(f: FilterView) -> Option<QueryFault> {
    let (field, op, value) = f;
    let ps = pieces(value);
    if field == "id"@ && exists|i: int| 0 <= i < ps.len() && (#[trigger] parse_u32(ps[i])) is None {
        Some(QueryFault::InvalidValue(ValueKind::Id))
    } else if field == "priority"@ && exists|i: int|
        0 <= i < ps.len() && (#[trigger] priority_of(ps[i])) is None {
        Some(QueryFault::InvalidValue(ValueKind::Priority))
    } else if op != Operator::Eq && !ordered_field(field) {
        Some(QueryFault::UnsupportedOperator(field))
    } else if op != Operator::Eq && field == "due_date"@ && !iso_date(value) {
        Some(QueryFault::InvalidValue(ValueKind::Date))
    } else {
        None
    }
}

/// The first fault among the filters.
pub open spec fn filters_fault(fs: Seq<FilterView>) -> Option<QueryFault>
    decreases fs.len(),
{
    if fs.len() == 0 {
        None
    } else {
        match filter_fault(fs[0]) {
            Some(e) => Some(e),
            None => filters_fault(fs.drop_first()),
        }
    }
}

fn check_filter(f: &Filter) -> (r: Result<(), QueryError>)
    requires
        alias(f.field@) == f.field@,
    ensures
        match r {
            Ok(()) => filter_fault(filter_view(*f)) is None,
            Err(e) => filter_fault(filter_view(*f)) == Some(query_fault(e)),
        },
{
    let vs = chars_of(f.value.as_str());
    let parts = split_commas(&vs);
    let ghost ps = pieces(f.value@);
    proof {
        reveal_strlit("id");
        reveal_strlit("priority");
    }
    if same_text(f.field.as_str(), "id") {
        let mut i: usize = 0;
        while i < parts.len()
            invariant
                i <= parts@.len() == ps.len(),
                ps == pieces(f.value@),
                f.field@ == "id"@,
                alias(f.field@) == f.field@,
                forall|x: int| 0 <= x < parts@.len() ==> (#[trigger] parts@[x])@ == ps[x],
                forall|x: int| 0 <= x < i ==> (#[trigger] parse_u32(ps[x])) is Some,
            decreases parts@.len() - i,
        {
            let p = string_of(&parts[i]);
            if read_u32(p.as_str()).is_none() {
                assert(parse_u32(ps[i as int]) is None);
                return Err(QueryError::InvalidValue(ValueKind::Id));
            }
            i = i + 1;
        }
    }
    if same_text(f.field.as_str(), "priority") {
        proof {
            reveal_strlit("id");
            reveal_strlit("priority");
            assert("id"@.len() != "priority"@.len());
        }
        let mut i: usize = 0;
        while i < parts.len()
            invariant
                i <= parts@.len() == ps.len(),
                ps == pieces(f.value@),
                f.field@ == "priority"@,
                f.field@ != "id"@,
                alias(f.field@) == f.field@,
                forall|x: int| 0 <= x < parts@.len() ==> (#[trigger] parts@[x])@ == ps[x],
                forall|x: int| 0 <= x < i ==> (#[trigger] priority_of(ps[x])) is Some,
            decreases parts@.len() - i,
        {
            let p = string_of(&parts[i]);
            if Priority::from_str(p.as_str()).is_err() {
                assert(priority_of(ps[i as int]) is None);
                assert(filter_view(*f).0 == "priority"@);
                assert(filter_view(*f).0 != "id"@);
                assert(filter_view(*f).2 == f.value@);
                assert(filter_fault(filter_view(*f)) == Some(QueryFault::InvalidValue(ValueKind::Priority)));
                return Err(QueryError::InvalidValue(ValueKind::Priority));
            }
            i = i + 1;
        }
    }
    let field = f.field.as_str();
    if f.operator != Operator::Eq {
        let ordered = same_text(field, "id") || same_text(field, "priority") || same_text(
            field,
            "due_date",
        ) || same_text(field, "created") || same_text(field, "updated");
        if !ordered {
            return Err(QueryError::UnsupportedOperator(f.field.clone()));
        }
        if same_text(field, "due_date") && !parses_as_date(f.value.as_str()) {
            return Err(QueryError::InvalidValue(ValueKind::Date));
        }
    }
    Ok(())
}

/// Checks the values and operators of the filters, whose fields are in canonical form.
pub fn validate_filters(filters: &Vec<Filter>) -> (r: Result<(), QueryError>)
    requires
        forall|i: int| 0 <= i < filters@.len() ==> alias((#[trigger] filters@[i]).field@) == filters@[i].field@,
    ensures
        match r {
            Ok(()) => filters_fault(filter_views(filters@)) is None,
            Err(e) => filters_fault(filter_views(filters@)) == Some(query_fault(e)),
        },
{
    let ghost fv = filter_views(filters@);
    let mut k: usize = 0;
    assert(fv.subrange(0, fv.len() as int) =~= fv);
    while k < filters.len()
        invariant
            k <= filters@.len() == fv.len(),
            fv == filter_views(filters@),
            forall|i: int| 0 <= i < filters@.len() ==> alias((#[trigger] filters@[i]).field@) == filters@[i].field@,
            filters_fault(fv) == filters_fault(fv.subrange(k as int, fv.len() as int)),
        decreases filters@.len() - k,
    {
        let ghost rest = fv.subrange(k as int, fv.len() as int);
        assert(rest.drop_first() =~= fv.subrange(k + 1, fv.len() as int));
        assert(rest[0] == filter_view(filters@[k as int]));
        check_filter(&filters[k])?;
        k = k + 1;
    }
    assert(fv.subrange(k as int, fv.len() as int).len() == 0);
    Ok(())
}

} // verus!
