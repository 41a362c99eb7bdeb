//! The query engine: filters, sorts and projects issue records into rows.
use crate::fields::{
    alias, all_columns, filter_views, filters_fault, first_unknown, get_all_column_names,
    query_fault, resolve_fields, validate_filters, FieldContext, FilterView, QueryError,
    QueryFault,
};
use crate::link::views;
use crate::model::{
    decimal, dash_if_empty, me_resolves, or_dash, parse_u32, priority_of, priority_tag, rank,
    read_u32, same_text, texts, u32_text, user_handle_me, Config, Filter, Meta, MetaView, Operator,
    Order, Priority, Settings, Sorting, Users,
};
use crate::relmap::{lookup, rel_get};
use crate::text::{chars_of, do_strings_match, pieces, split_commas, string_of, strings_match};
use vstd::prelude::*;

verus! {

/// Lexicographic order of strings by character: -1, 0 or 1.
pub open spec fn lex(a: Seq<char>, b: Seq<char>) -> int
    decreases a.len(),
{
    if a.len() == 0 {
        if b.len() == 0 {
            0
        } else {
            -1
        }
    } else if b.len() == 0 {
        1
    } else if a[0] < b[0] {
        -1
    } else if a[0] > b[0] {
        1
    } else {
        lex(a.drop_first(), b.drop_first())
    }
}

/// Lexicographic order of lists of strings.
pub open spec fn lex_texts(a: Seq<Seq<char>>, b: Seq<Seq<char>>) -> int
    decreases a.len(),
{
    if a.len() == 0 {
        if b.len() == 0 {
            0
        } else {
            -1
        }
    } else if b.len() == 0 {
        1
    } else if lex(a[0], b[0]) != 0 {
        lex(a[0], b[0])
    } else {
        lex_texts(a.drop_first(), b.drop_first())
    }
}

/// Order of two integers: -1, 0 or 1.
pub open spec fn num_cmp(a: int, b: int) -> int {
    if a < b {
        -1
    } else if a > b {
        1
    } else {
        0
    }
}

/// Lexicographic order of lists of ids.
pub open spec fn lex_ids(a: Seq<u32>, b: Seq<u32>) -> int
    decreases a.len(),
{
    if a.len() == 0 {
        if b.len() == 0 {
            0
        } else {
            -1
        }
    } else if b.len() == 0 {
        1
    } else if a[0] != b[0] {
        num_cmp(a[0] as int, b[0] as int)
    } else {
        lex_ids(a.drop_first(), b.drop_first())
    }
}

fn cmp_chars(a: &Vec<char>, b: &Vec<char>) -> (r: i8)
    ensures
        r as int == lex(a@, b@),
{
    let mut i: usize = 0;
    assert(a@.subrange(0, a@.len() as int) =~= a@);
    assert(b@.subrange(0, b@.len() as int) =~= b@);
    while i < a.len() && i < b.len() && a[i] == b[i]
        invariant
            i <= a@.len(),
            i <= b@.len(),
            lex(a@, b@) == lex(
                a@.subrange(i as int, a@.len() as int),
                b@.subrange(i as int, b@.len() as int),
            ),
        decreases a@.len() - i,
    {
        let ghost x = a@.subrange(i as int, a@.len() as int);
        let ghost y = b@.subrange(i as int, b@.len() as int);
        assert(x.drop_first() =~= a@.subrange(i + 1, a@.len() as int));
        assert(y.drop_first() =~= b@.subrange(i + 1, b@.len() as int));
        i = i + 1;
    }
    let ghost x = a@.subrange(i as int, a@.len() as int);
    let ghost y = b@.subrange(i as int, b@.len() as int);
    if i == a.len() {
        if i == b.len() {
            0
        } else {
            -1
        }
    } else if i == b.len() {
        1
    } else {
        assert(x[0] == a@[i as int] && y[0] == b@[i as int]);
        if a[i] < b[i] {
            -1
        } else {
            1
        }
    }
}

/// Compares two strings by character.
pub fn cmp_text(a: &str, b: &str) -> (r: i8)
    ensures
        r as int == lex(a@, b@),
{
    let x = chars_of(a);
    let y = chars_of(b);
    cmp_chars(&x, &y)
}

fn cmp_texts(a: &Vec<String>, b: &Vec<String>) -> (r: i8)
    ensures
        r as int == lex_texts(texts(a@), texts(b@)),
{
    let ghost ta = texts(a@);
    let ghost tb = texts(b@);
    let mut i: usize = 0;
    assert(ta.subrange(0, ta.len() as int) =~= ta);
    assert(tb.subrange(0, tb.len() as int) =~= tb);
    loop
        invariant
            i <= a@.len(),
            i <= b@.len(),
            ta == texts(a@),
            tb == texts(b@),
            lex_texts(ta, tb) == lex_texts(
                ta.subrange(i as int, ta.len() as int),
                tb.subrange(i as int, tb.len() as int),
            ),
        decreases a@.len() - i,
    {
        let ghost x = ta.subrange(i as int, ta.len() as int);
        let ghost y = tb.subrange(i as int, tb.len() as int);
        if i == a.len() {
            return if i == b.len() {
                0
            } else {
                -1
            };
        }
        if i == b.len() {
            return 1;
        }
        assert(x[0] == a@[i as int]@ && y[0] == b@[i as int]@);
        let c = cmp_text(a[i].as_str(), b[i].as_str());
        if c != 0 {
            return c;
        }
        assert(x.drop_first() =~= ta.subrange(i + 1, ta.len() as int));
        assert(y.drop_first() =~= tb.subrange(i + 1, tb.len() as int));
        i = i + 1;
    }
}

fn cmp_ids(a: &Vec<u32>, b: &Vec<u32>) -> (r: i8)
    ensures
        r as int == lex_ids(a@, b@),
{
    let mut i: usize = 0;
    assert(a@.subrange(0, a@.len() as int) =~= a@);
    assert(b@.subrange(0, b@.len() as int) =~= b@);
    while i < a.len() && i < b.len() && a[i] == b[i]
        invariant
            i <= a@.len(),
            i <= b@.len(),
            lex_ids(a@, b@) == lex_ids(
                a@.subrange(i as int, a@.len() as int),
                b@.subrange(i as int, b@.len() as int),
            ),
        decreases a@.len() - i,
    {
        let ghost x = a@.subrange(i as int, a@.len() as int);
        let ghost y = b@.subrange(i as int, b@.len() as int);
        assert(x.drop_first() =~= a@.subrange(i + 1, a@.len() as int));
        assert(y.drop_first() =~= b@.subrange(i + 1, b@.len() as int));
        i = i + 1;
    }
    let ghost x = a@.subrange(i as int, a@.len() as int);
    let ghost y = b@.subrange(i as int, b@.len() as int);
    if i == a.len() {
        if i == b.len() {
            0
        } else {
            -1
        }
    } else if i == b.len() {
        1
    } else {
        assert(x[0] == a@[i as int] && y[0] == b@[i as int]);
        if a[i] < b[i] {
            -1
        } else {
            1
        }
    }
}

/// The order of two records on one field. On a relationship type, a record
/// without it orders below one that has it: first when ascending, last when
/// descending.
pub open spec fn cmp_field(f: Seq<char>, a: MetaView, b: MetaView) -> int {
    if f == "id"@ {
        num_cmp(a.id as int, b.id as int)
    } else if f == "title"@ {
        lex(a.title, b.title)
    } else if f == "state"@ {
        lex(a.state, b.state)
    } else if f == "type"@ {
        lex(a.type_, b.type_)
    } else if f == "labels"@ {
        lex_texts(a.labels, b.labels)
    } else if f == "reporter"@ {
        lex(a.reporter, b.reporter)
    } else if f == "assignee"@ {
        lex(a.assignee, b.assignee)
    } else if f == "priority"@ {
        num_cmp(rank(a.priority), rank(b.priority))
    } else if f == "due_date"@ {
        lex(a.due_date, b.due_date)
    } else if f == "created"@ {
        lex(a.created, b.created)
    } else if f == "updated"@ {
        lex(a.updated, b.updated)
    } else {
        match (lookup(a.relationships, f), lookup(b.relationships, f)) {
            (Some(x), Some(y)) => lex_ids(x, y),
            (Some(_), None) => 1,
            (None, Some(_)) => -1,
            (None, None) => 0,
        }
    }
}

/// The opposite order.
pub open spec fn flip(c: int) -> int {
    if c > 0 {
        -1
    } else if c < 0 {
        1
    } else {
        0
    }
}

/// A sort key as plain values.
pub type SortKey = (Seq<char>, Order);

/// The order of two records on a chain of keys: each key breaks the ties of the ones before.
pub open spec fn cmp_keys(keys: Seq<SortKey>, a: MetaView, b: MetaView) -> int
    decreases keys.len(),
{
    if keys.len() == 0 {
        0
    } else {
        let c = cmp_field(keys[0].0, a, b);
        let c = if keys[0].1 == Order::Desc {
            flip(c)
        } else {
            c
        };
        if c != 0 {
            c
        } else {
            cmp_keys(keys.drop_first(), a, b)
        }
    }
}

fn cmp_field_exec(f: &str, a: &Meta, b: &Meta) -> (r: i8)
    ensures
        r as int == cmp_field(f@, a@, b@),
{
    if same_text(f, "id") {
        if a.id < b.id {
            -1
        } else if a.id > b.id {
            1
        } else {
            0
        }
    } else if same_text(f, "title") {
        cmp_text(a.title.as_str(), b.title.as_str())
    } else if same_text(f, "state") {
        cmp_text(a.state.as_str(), b.state.as_str())
    } else if same_text(f, "type") {
        cmp_text(a.type_.as_str(), b.type_.as_str())
    } else if same_text(f, "labels") {
        cmp_texts(&a.labels, &b.labels)
    } else if same_text(f, "reporter") {
        cmp_text(a.reporter.as_str(), b.reporter.as_str())
    } else if same_text(f, "assignee") {
        cmp_text(a.assignee.as_str(), b.assignee.as_str())
    } else if same_text(f, "priority") {
        let x = a.priority.as_int();
        let y = b.priority.as_int();
        if x < y {
            -1
        } else if x > y {
            1
        } else {
            0
        }
    } else if same_text(f, "due_date") {
        cmp_text(a.due_date.as_str(), b.due_date.as_str())
    } else if same_text(f, "created") {
        cmp_text(a.created.as_str(), b.created.as_str())
    } else if same_text(f, "updated") {
        cmp_text(a.updated.as_str(), b.updated.as_str())
    } else {
        match (rel_get(&a.relationships, f), rel_get(&b.relationships, f)) {
            (Some(x), Some(y)) => cmp_ids(x, y),
            (Some(_), None) => 1,
            (None, Some(_)) => -1,
            (None, None) => 0,
        }
    }
}

pub open spec fn sort_keys(ss: Seq<Sorting>) -> Seq<SortKey> {
    ss.map_values(|s: Sorting| (s.field@, s.order))
}

/// Compares two records on a chain of sort keys.
pub fn compare(keys: &Vec<Sorting>, a: &Meta, b: &Meta) -> (r: i8)
    ensures
        r as int == cmp_keys(sort_keys(keys@), a@, b@),
{
    let ghost ks = sort_keys(keys@);
    let mut i: usize = 0;
    assert(ks.subrange(0, ks.len() as int) =~= ks);
    while i < keys.len()
        invariant
            i <= keys@.len() == ks.len(),
            ks == sort_keys(keys@),
            cmp_keys(ks, a@, b@) == cmp_keys(ks.subrange(i as int, ks.len() as int), a@, b@),
        decreases keys@.len() - i,
    {
        let ghost rest = ks.subrange(i as int, ks.len() as int);
        assert(rest.drop_first() =~= ks.subrange(i + 1, ks.len() as int));
        assert(rest[0] == (keys@[i as int].field@, keys@[i as int].order));
        let c = cmp_field_exec(keys[i].field.as_str(), a, b);
        let c = if keys[i].order == Order::Desc {
            if c > 0 {
                -1
            } else if c < 0 {
                1
            } else {
                0
            }
        } else {
            c
        };
        if c != 0 {
            return c;
        }
        i = i + 1;
    }
    0
}

/// Where a stable insertion puts `x` among the records `r`: before the first
/// one that orders after it.
pub open spec fn insert_pos(keys: Seq<SortKey>, r: Seq<MetaView>, x: MetaView) -> int
    decreases r.len(),
{
    if r.len() == 0 {
        0
    } else {
        let p = insert_pos(keys, r.drop_last(), x);
        if p < r.len() - 1 {
            p
        } else if cmp_keys(keys, r.last(), x) > 0 {
            r.len() - 1
        } else {
            r.len() as int
        }
    }
}

/// The records sorted on the keys, stably: records that compare equal keep
/// their relative order.
pub open spec fn sorted_by(keys: Seq<SortKey>, s: Seq<MetaView>) -> Seq<MetaView>
    decreases s.len(),
{
    if s.len() == 0 {
        s
    } else {
        let r = sorted_by(keys, s.drop_last());
        r.insert(insert_pos(keys, r, s.last()), s.last())
    }
}

proof fn lemma_insert_pos(keys: Seq<SortKey>, r: Seq<MetaView>, x: MetaView, j: int)
    requires
        0 <= j <= r.len(),
        forall|k: int| 0 <= k < j ==> cmp_keys(keys, #[trigger] r[k], x) <= 0,
        j == r.len() || cmp_keys(keys, r[j], x) > 0,
    ensures
        insert_pos(keys, r, x) == j,
    decreases r.len(),
{
    if r.len() > 0 {
        let d = r.drop_last();
        if j < r.len() - 1 {
            assert(d[j] == r[j]);
            assert forall|k: int| 0 <= k < j implies cmp_keys(keys, #[trigger] d[k], x) <= 0 by {
                assert(d[k] == r[k]);
            }
            lemma_insert_pos(keys, d, x, j);
        } else {
            assert forall|k: int| 0 <= k < d.len() implies cmp_keys(keys, #[trigger] d[k], x) <= 0 by {
                assert(d[k] == r[k]);
            }
            lemma_insert_pos(keys, d, x, d.len() as int);
            if j == r.len() - 1 {
                assert(r.last() == r[j]);
            } else {
                assert(r.last() == r[r.len() - 1]);
            }
        }
    }
}

/// Sorts the records stably on the keys.
pub fn sort_records(keys: &Vec<Sorting>, items: Vec<Meta>) -> (r: Vec<Meta>)
    ensures
        views(r@) == sorted_by(sort_keys(keys@), views(items@)),
{
    let ghost ks = sort_keys(keys@);
    let ghost all = views(items@);
    let n = items.len();
    let mut rest = items;
    let mut out: Vec<Meta> = Vec::new();
    let mut k: usize = 0;
    assert(all.subrange(0, 0) =~= Seq::<MetaView>::empty());
    assert(all.subrange(0, n as int) =~= all);
    while k < n
        invariant
            k <= n == all.len(),
            ks == sort_keys(keys@),
            views(rest@) == all.subrange(k as int, n as int),
            views(out@) == sorted_by(ks, all.subrange(0, k as int)),
        decreases n - k,
    {
        let ghost before = views(rest@);
        assert(before.len() == rest@.len());
        assert(before[0] == all[k as int]);
        let ghost r0 = rest@[0];
        let ghost rs0 = rest@;
        let x = rest.remove(0);
        assert(x == r0);
        assert(x@ == before[0]);
        assert(rest@ =~= rs0.subrange(1, rs0.len() as int));
        assert forall|j: int| 0 <= j < rest@.len() implies #[trigger] views(rest@)[j] == all[k + 1 + j] by {
            assert(views(rest@)[j] == rest@[j]@);
            assert(rest@[j] == rs0[j + 1]);
            assert(before[j + 1] == rs0[j + 1]@);
        }
        assert(views(rest@) =~= all.subrange(k + 1, n as int));
        let mut j: usize = 0;
        while j < out.len() && compare(keys, &out[j], &x) <= 0
            invariant
                j <= out@.len(),
                ks == sort_keys(keys@),
                forall|q: int| 0 <= q < j ==> cmp_keys(ks, #[trigger] views(out@)[q], x@) <= 0,
            decreases out@.len() - j,
        {
            j = j + 1;
        }
        proof {
            lemma_insert_pos(ks, views(out@), x@, j as int);
            let p = all.subrange(0, k + 1);
            assert(p.drop_last() =~= all.subrange(0, k as int));
            assert(p.last() == x@);
        }
        let ghost o = views(out@);
        out.insert(j, x);
        assert(views(out@) =~= o.insert(j as int, x@));
        k = k + 1;
    }
    out
}

/// The description stored for `id`, if any.
pub open spec fn description_of(ds: Seq<(u32, String)>, id: u32) -> Option<Seq<char>>
    decreases ds.len(),
{
    if ds.len() == 0 {
        None
    } else if ds[0].0 == id {
        Some(ds[0].1@)
    } else {
        description_of(ds.drop_first(), id)
    }
}

/// `ps` joined with commas.
pub open spec fn joined(ps: Seq<Seq<char>>) -> Seq<char>
    decreases ps.len(),
{
    if ps.len() == 0 {
        Seq::empty()
    } else if ps.len() == 1 {
        ps[0]
    } else {
        joined(ps.drop_last()) + seq![','] + ps.last()
    }
}

/// Whether a list field matches: some element matches, or both the list and
/// the pattern are empty.
pub open spec fn list_match(list: Seq<Seq<char>>, pattern: Seq<char>) -> bool {
    (pattern.len() == 0 && list.len() == 0) || exists|i: int|
        0 <= i < list.len() && strings_match(#[trigger] list[i], pattern)
}

pub open spec fn id_texts(ids: Seq<u32>) -> Seq<Seq<char>> {
    ids.map_values(|i: u32| decimal(i as nat))
}

/// The pattern with each `me` piece replaced by the settings' user.
pub open spec fn me_swapped(ps: Seq<Seq<char>>, user: Seq<char>) -> Seq<Seq<char>> {
    ps.map_values(|p: Seq<char>| if p == "me"@ { user } else { p })
}

/// Whether a user field matches, the `me` sentinel of the pattern standing
/// for the settings' user; no match when `me` is used and cannot be resolved.
pub open spec fn me_match(settings: Settings, users: Users, value: Seq<char>, pattern: Seq<char>) -> bool {
    if pieces(pattern).contains("me"@) && !me_resolves(users, settings) {
        false
    } else {
        strings_match(value, joined(me_swapped(pieces(pattern), settings.user@)))
    }
}

/// Whether a record passes an equality filter.
pub open spec fn eq_holds(
    settings: Settings,
    users: Users,
    ds: Seq<(u32, String)>,
    field: Seq<char>,
    v: Seq<char>,
    m: MetaView,
) -> bool {
    if field == "id"@ {
        strings_match(decimal(m.id as nat), v)
    } else if field == "title"@ {
        strings_match(m.title, v)
    } else if field == "state"@ {
        strings_match(m.state, v)
    } else if field == "type"@ {
        strings_match(m.type_, v)
    } else if field == "labels"@ {
        list_match(m.labels, v)
    } else if field == "assignee"@ {
        me_match(settings, users, m.assignee, v)
    } else if field == "reporter"@ {
        me_match(settings, users, m.reporter, v)
    } else if field == "priority"@ {
        strings_match(priority_tag(m.priority), v)
    } else if field == "due_date"@ {
        strings_match(m.due_date, v)
    } else if field == "created"@ {
        strings_match(m.created, v)
    } else if field == "updated"@ {
        strings_match(m.updated, v)
    } else if field == "description"@ {
        match description_of(ds, m.id) {
            Some(d) => strings_match(d, v),
            None => false,
        }
    } else {
        match lookup(m.relationships, field) {
            Some(ids) => list_match(id_texts(ids), v),
            None => v.len() == 0,
        }
    }
}

/// Whether a record passes a `>` (`gt`) or `<` filter: ids by number,
/// priorities by rank, dates and timestamps by their text.
pub open spec fn order_holds(gt: bool, field: Seq<char>, v: Seq<char>, m: MetaView) -> bool {
    if field == "id"@ {
        match parse_u32(v) {
            Some(k) => if gt {
                m.id > k
            } else {
                m.id < k
            },
            None => false,
        }
    } else if field == "priority"@ {
        match priority_of(v) {
            Some(p) => if gt {
                rank(m.priority) > rank(p)
            } else {
                rank(m.priority) < rank(p)
            },
            None => false,
        }
    } else if field == "due_date"@ || field == "created"@ || field == "updated"@ {
        let t = if field == "due_date"@ {
            m.due_date
        } else if field == "created"@ {
            m.created
        } else {
            m.updated
        };
        if gt {
            lex(t, v) > 0
        } else {
            lex(t, v) < 0
        }
    } else {
        false
    }
}

pub open spec fn holds(
    settings: Settings,
    users: Users,
    ds: Seq<(u32, String)>,
    f: FilterView,
    m: MetaView,
) -> bool {
    match f.1 {
        Operator::Eq => eq_holds(settings, users, ds, f.0, f.2, m),
        Operator::Gt => order_holds(true, f.0, f.2, m),
        Operator::Lt => order_holds(false, f.0, f.2, m),
    }
}

/// Whether a record passes every filter.
pub open spec fn passes(
    settings: Settings,
    users: Users,
    ds: Seq<(u32, String)>,
    fs: Seq<FilterView>,
    m: MetaView,
) -> bool {
    forall|i: int| 0 <= i < fs.len() ==> holds(settings, users, ds, #[trigger] fs[i], m)
}

/// The records that pass every filter, in their order.
pub open spec fn select(
    settings: Settings,
    users: Users,
    ds: Seq<(u32, String)>,
    fs: Seq<FilterView>,
    s: Seq<MetaView>,
) -> Seq<MetaView>
    decreases s.len(),
{
    if s.len() == 0 {
        s
    } else {
        let r = select(settings, users, ds, fs, s.drop_last());
        if passes(settings, users, ds, fs, s.last()) {
            r.push(s.last())
        } else {
            r
        }
    }
}

/// The values of `list` joined with commas.
pub fn join_texts(list: &Vec<String>) -> (r: String)
    ensures
        r@ == joined(texts(list@)),
{
    let ghost t = texts(list@);
    let mut r = String::new();
    let mut i: usize = 0;
    proof {
        reveal_strlit(",");
    }
    while i < list.len()
        invariant
            i <= list@.len(),
            t == texts(list@),
            r@ == joined(t.subrange(0, i as int)),
            ","@ == seq![','],
        decreases list@.len() - i,
    {
        let ghost p = t.subrange(0, i + 1);
        assert(p.drop_last() =~= t.subrange(0, i as int));
        assert(p.last() == list@[i as int]@);
        if i > 0 {
            r.append(",");
        }
        r.append(list[i].as_str());
        i = i + 1;
        if i == 1 {
            assert(r@ =~= joined(p));
        }
    }
    assert(t.subrange(0, i as int) =~= t);
    r
}

fn id_strings(ids: &Vec<u32>) -> (r: Vec<String>)
    ensures
        texts(r@) == id_texts(ids@),
{
    let mut r: Vec<String> = Vec::new();
    let mut i: usize = 0;
    while i < ids.len()
        invariant
            i <= ids@.len(),
            texts(r@) == id_texts(ids@.subrange(0, i as int)),
        decreases ids@.len() - i,
    {
        let ghost before = r@;
        r.push(u32_text(ids[i]));
        i = i + 1;
        assert(texts(r@) =~= id_texts(ids@.subrange(0, i as int))) by {
            assert(texts(r@) =~= texts(before).push(decimal(ids@[i - 1] as nat)));
        }
    }
    assert(ids@.subrange(0, i as int) =~= ids@);
    r
}

/// Whether some value of the list matches, or both list and pattern are empty.
pub fn is_in_str_list(list: &Vec<String>, pattern: &str) -> (r: bool)
    ensures
        r == list_match(texts(list@), pattern@),
{
    if pattern.is_empty() && list.len() == 0 {
        return true;
    }
    let ghost t = texts(list@);
    let mut i: usize = 0;
    while i < list.len()
        invariant
            i <= list@.len(),
            t == texts(list@),
            forall|k: int| 0 <= k < i ==> !strings_match(#[trigger] t[k], pattern@),
        decreases list@.len() - i,
    {
        if do_strings_match(list[i].as_str(), pattern) {
            assert(strings_match(t[i as int], pattern@));
            return true;
        }
        i = i + 1;
    }
    false
}

/// Whether some id of the list matches, or both list and pattern are empty.
pub fn is_in_u32_list(list: &Vec<u32>, pattern: &str) -> (r: bool)
    ensures
        r == list_match(id_texts(list@), pattern@),
{
    let strs = id_strings(list);
    is_in_str_list(&strs, pattern)
}

/// Matches a user field, with `me` in the pattern standing for the settings' user.
pub fn do_strings_match_with_me(value: &str, pattern: &str, settings: &Settings, users: &Users) -> (r:
    bool)
    ensures
        r == me_match(*settings, *users, value@, pattern@),
{
    let cs = chars_of(pattern);
    let parts = split_commas(&cs);
    let ghost ps = pieces(pattern@);
    let ghost sw = me_swapped(ps, settings.user@);
    let mut words: Vec<String> = Vec::new();
    let mut i: usize = 0;
    while i < parts.len()
        invariant
            i <= parts@.len() == ps.len(),
            ps == pieces(pattern@),
            sw == me_swapped(ps, settings.user@),
            forall|x: int| 0 <= x < parts@.len() ==> (#[trigger] parts@[x])@ == ps[x],
            forall|x: int| 0 <= x < i ==> ps[x] != "me"@ || me_resolves(*users, *settings),
            texts(words@) == sw.subrange(0, i as int),
        decreases parts@.len() - i,
    {
        let mut word = string_of(&parts[i]);
        let ghost before = words@;
        match user_handle_me(users, settings, &mut word) {
            Ok(()) => {},
            Err(_) => {
                assert(ps[i as int] == "me"@);
                assert(ps.contains("me"@));
                return false;
            },
        }
        words.push(word);
        i = i + 1;
        assert(texts(words@) =~= sw.subrange(0, i as int)) by {
            assert(texts(words@) =~= texts(before).push(sw[i - 1]));
        }
    }
    assert(sw.subrange(0, i as int) =~= sw);
    assert(!ps.contains("me"@) || me_resolves(*users, *settings)) by {
        if ps.contains("me"@) {
            let x = choose|x: int| 0 <= x < ps.len() && ps[x] == "me"@;
            assert(ps[x] != "me"@ || me_resolves(*users, *settings));
        }
    }
    let joined_pattern = join_texts(&words);
    do_strings_match(value, joined_pattern.as_str())
}

/// Matches the description stored for `id`; no match when there is none.
pub fn does_description_match(descriptions: &Vec<(u32, String)>, id: u32, pattern: &str) -> (r: bool)
    ensures
        r == match description_of(descriptions@, id) {
            Some(d) => strings_match(d, pattern@),
            None => false,
        },
{
    let mut i: usize = 0;
    assert(descriptions@.subrange(0, descriptions@.len() as int) =~= descriptions@);
    while i < descriptions.len()
        invariant
            i <= descriptions@.len(),
            description_of(descriptions@, id) == description_of(
                descriptions@.subrange(i as int, descriptions@.len() as int),
                id,
            ),
        decreases descriptions@.len() - i,
    {
        let ghost rest = descriptions@.subrange(i as int, descriptions@.len() as int);
        assert(rest.drop_first() =~= descriptions@.subrange(i + 1, descriptions@.len() as int));
        assert(rest[0] == descriptions@[i as int]);
        if descriptions[i].0 == id {
            return do_strings_match(descriptions[i].1.as_str(), pattern);
        }
        i = i + 1;
    }
    false
}

/// Whether a record passes an equality filter on `field`.
pub fn filter_eq(
    field: &str,
    value: &str,
    meta: &Meta,
    settings: &Settings,
    users: &Users,
    descriptions: &Vec<(u32, String)>,
) -> (r: bool)
    ensures
        r == eq_holds(*settings, *users, descriptions@, field@, value@, meta@),
{
    if same_text(field, "id") {
        let t = u32_text(meta.id);
        do_strings_match(t.as_str(), value)
    } else if same_text(field, "title") {
        do_strings_match(meta.title.as_str(), value)
    } else if same_text(field, "state") {
        do_strings_match(meta.state.as_str(), value)
    } else if same_text(field, "type") {
        do_strings_match(meta.type_.as_str(), value)
    } else if same_text(field, "labels") {
        is_in_str_list(&meta.labels, value)
    } else if same_text(field, "assignee") {
        do_strings_match_with_me(meta.assignee.as_str(), value, settings, users)
    } else if same_text(field, "reporter") {
        do_strings_match_with_me(meta.reporter.as_str(), value, settings, users)
    } else if same_text(field, "priority") {
        let t = meta.priority.tag();
        do_strings_match(t.as_str(), value)
    } else if same_text(field, "due_date") {
        do_strings_match(meta.due_date.as_str(), value)
    } else if same_text(field, "created") {
        do_strings_match(meta.created.as_str(), value)
    } else if same_text(field, "updated") {
        do_strings_match(meta.updated.as_str(), value)
    } else if same_text(field, "description") {
        does_description_match(descriptions, meta.id, value)
    } else {
        match rel_get(&meta.relationships, field) {
            Some(ids) => is_in_u32_list(ids, value),
            None => value.is_empty(),
        }
    }
}

/// Whether a record passes a `>` (`gt`) or `<` filter on `field`.
pub fn filter_order(gt: bool, field: &str, value: &str, meta: &Meta) -> (r: bool)
    ensures
        r == order_holds(gt, field@, value@, meta@),
{
    if same_text(field, "id") {
        match read_u32(value) {
            Some(k) => if gt {
                meta.id > k
            } else {
                meta.id < k
            },
            None => false,
        }
    } else if same_text(field, "priority") {
        match Priority::from_str(value) {
            Ok(p) => if gt {
                meta.priority.as_int() > p.as_int()
            } else {
                meta.priority.as_int() < p.as_int()
            },
            Err(_) => false,
        }
    } else if same_text(field, "due_date") || same_text(field, "created") || same_text(
        field,
        "updated",
    ) {
        let t = if same_text(field, "due_date") {
            meta.due_date.as_str()
        } else if same_text(field, "created") {
            meta.created.as_str()
        } else {
            meta.updated.as_str()
        };
        let c = cmp_text(t, value);
        if gt {
            c > 0
        } else {
            c < 0
        }
    } else {
        false
    }
}

/// Whether a record passes a `>` filter.
pub fn filter_gt(field: &str, value: &str, meta: &Meta) -> (r: bool)
    ensures
        r == order_holds(true, field@, value@, meta@),
{
    filter_order(true, field, value, meta)
}

/// Whether a record passes a `<` filter.
pub fn filter_lt(field: &str, value: &str, meta: &Meta) -> (r: bool)
    ensures
        r == order_holds(false, field@, value@, meta@),
{
    filter_order(false, field, value, meta)
}

fn passes_all(
    filters: &Vec<Filter>,
    meta: &Meta,
    settings: &Settings,
    users: &Users,
    descriptions: &Vec<(u32, String)>,
) -> (r: bool)
    requires
        forall|i: int| 0 <= i < filters@.len() ==> alias((#[trigger] filters@[i]).field@) == filters@[i].field@,
    ensures
        r == passes(*settings, *users, descriptions@, filter_views(filters@), meta@),
{
    let ghost fv = filter_views(filters@);
    let mut i: usize = 0;
    while i < filters.len()
        invariant
            i <= filters@.len() == fv.len(),
            fv == filter_views(filters@),
            forall|k: int| 0 <= k < filters@.len() ==> alias((#[trigger] filters@[k]).field@) == filters@[k].field@,
            forall|k: int| 0 <= k < i ==> holds(*settings, *users, descriptions@, #[trigger] fv[k], meta@),
        decreases filters@.len() - i,
    {
        let f = &filters[i];
        assert(fv[i as int] == (f.field@, f.operator, f.value@));
        let ok = match f.operator {
            Operator::Eq => filter_eq(
                f.field.as_str(),
                f.value.as_str(),
                meta,
                settings,
                users,
                descriptions,
            ),
            Operator::Gt => filter_gt(f.field.as_str(), f.value.as_str(), meta),
            Operator::Lt => filter_lt(f.field.as_str(), f.value.as_str(), meta),
        };
        if !ok {
            return false;
        }
        i = i + 1;
    }
    true
}

/// Keeps the records that pass every filter, in their order.
pub fn filter_records(
    filters: &Vec<Filter>,
    items: Vec<Meta>,
    settings: &Settings,
    users: &Users,
    descriptions: &Vec<(u32, String)>,
) -> (r: Vec<Meta>)
    requires
        forall|i: int| 0 <= i < filters@.len() ==> alias((#[trigger] filters@[i]).field@) == filters@[i].field@,
    ensures
        views(r@) == select(*settings, *users, descriptions@, filter_views(filters@), views(items@)),
{
    let ghost fv = filter_views(filters@);
    let ghost all = views(items@);
    let n = items.len();
    let mut rest = items;
    let mut out: Vec<Meta> = Vec::new();
    let mut k: usize = 0;
    assert(all.subrange(0, n as int) =~= all);
    while k < n
        invariant
            k <= n == all.len(),
            fv == filter_views(filters@),
            forall|i: int| 0 <= i < filters@.len() ==> alias((#[trigger] filters@[i]).field@) == filters@[i].field@,
            views(rest@) == all.subrange(k as int, n as int),
            views(out@) == select(*settings, *users, descriptions@, fv, all.subrange(0, k as int)),
        decreases n - k,
    {
        let ghost before = views(rest@);
        assert(before.len() == rest@.len());
        assert(before[0] == all[k as int]);
        let ghost r0 = rest@[0];
        let ghost rs0 = rest@;
        let x = rest.remove(0);
        assert(x == r0);
        assert(x@ == before[0]);
        assert(rest@ =~= rs0.subrange(1, rs0.len() as int));
        assert forall|j: int| 0 <= j < rest@.len() implies #[trigger] views(rest@)[j] == all[k + 1 + j] by {
            assert(views(rest@)[j] == rest@[j]@);
            assert(rest@[j] == rs0[j + 1]);
            assert(before[j + 1] == rs0[j + 1]@);
        }
        assert(views(rest@) =~= all.subrange(k + 1, n as int));
        proof {
            let p = all.subrange(0, k + 1);
            assert(p.drop_last() =~= all.subrange(0, k as int));
            assert(p.last() == x@);
        }
        let ghost o = views(out@);
        if passes_all(filters, &x, settings, users, descriptions) {
            out.push(x);
            assert(views(out@) =~= o.push(x@));
        }
        k = k + 1;
    }
    out
}

/// The rendered value of a column for a record: empty values show as a dash;
/// lists and relationship ids are joined with commas.
pub open spec fn column_value(col: Seq<char>, m: MetaView) -> Seq<char> {
    if col == "id"@ {
        decimal(m.id as nat)
    } else if col == "title"@ {
        m.title
    } else if col == "state"@ {
        m.state
    } else if col == "type"@ {
        or_dash(m.type_)
    } else if col == "labels"@ {
        or_dash(joined(m.labels))
    } else if col == "reporter"@ {
        or_dash(m.reporter)
    } else if col == "assignee"@ {
        or_dash(m.assignee)
    } else if col == "priority"@ {
        or_dash(priority_tag(m.priority))
    } else if col == "due_date"@ {
        or_dash(m.due_date)
    } else if col == "created"@ {
        m.created
    } else if col == "updated"@ {
        m.updated
    } else {
        match lookup(m.relationships, col) {
            Some(ids) => or_dash(joined(id_texts(ids))),
            None => "-"@,
        }
    }
}

/// The rendered ids of a relationship column.
pub fn get_relationship_value(col: &str, meta: &Meta) -> (r: String)
    ensures
        r@ == match lookup(meta@.relationships, col@) {
            Some(ids) => or_dash(joined(id_texts(ids))),
            None => "-"@,
        },
{
    match rel_get(&meta.relationships, col) {
        Some(ids) => {
            let strs = id_strings(ids);
            let j = join_texts(&strs);
            dash_if_empty(j.as_str())
        },
        None => String::from_str("-"),
    }
}

/// The rendered value of one column for a record.
pub fn get_column_value(col: &str, meta: &Meta) -> (r: String)
    ensures
        r@ == column_value(col@, meta@),
{
    if same_text(col, "id") {
        u32_text(meta.id)
    } else if same_text(col, "title") {
        meta.title.clone()
    } else if same_text(col, "state") {
        meta.state.clone()
    } else if same_text(col, "type") {
        dash_if_empty(meta.type_.as_str())
    } else if same_text(col, "labels") {
        let j = join_texts(&meta.labels);
        dash_if_empty(j.as_str())
    } else if same_text(col, "reporter") {
        dash_if_empty(meta.reporter.as_str())
    } else if same_text(col, "assignee") {
        dash_if_empty(meta.assignee.as_str())
    } else if same_text(col, "priority") {
        let t = meta.priority.tag();
        dash_if_empty(t.as_str())
    } else if same_text(col, "due_date") {
        dash_if_empty(meta.due_date.as_str())
    } else if same_text(col, "created") {
        meta.created.clone()
    } else if same_text(col, "updated") {
        meta.updated.clone()
    } else {
        get_relationship_value(col, meta)
    }
}

/// One listed issue: its id and the rendered value of each column.
pub struct IssueData {
    pub id: u32,
    pub data: Vec<String>,
}

/// The listed issues, in order, and the columns they were rendered for.
pub struct ListResult {
    pub issues: Vec<IssueData>,
    pub columns: Vec<String>,
}

/// The columns asked for: the given ones, else the configured default.
pub open spec fn requested(cfg: Config, columns: Option<Vec<String>>) -> Seq<Seq<char>> {
    match columns {
        Some(c) => texts(c@),
        None => texts(cfg.list_columns@),
    }
}

/// `*` among the columns stands for every known column.
pub open spec fn expanded(cfg: Config, cols: Seq<Seq<char>>) -> Seq<Seq<char>> {
    if cols.contains("*"@) {
        all_columns(cfg)
    } else {
        cols
    }
}

pub open spec fn column_context(columns: Option<Vec<String>>) -> FieldContext {
    if columns is Some {
        FieldContext::Columns
    } else {
        FieldContext::DefaultColumns
    }
}

pub open spec fn sort_names(sorts: Option<Vec<Sorting>>) -> Seq<Seq<char>> {
    match sorts {
        Some(ss) => ss@.map_values(|s: Sorting| s.field@),
        None => Seq::empty(),
    }
}

pub open spec fn filter_names(filters: Option<Vec<Filter>>) -> Seq<Seq<char>> {
    match filters {
        Some(fs) => fs@.map_values(|f: Filter| f.field@),
        None => Seq::empty(),
    }
}

pub open spec fn given_filters(filters: Option<Vec<Filter>>) -> Seq<FilterView> {
    match filters {
        Some(fs) => filter_views(fs@),
        None => Seq::empty(),
    }
}

/// The sort keys in force: the given ones in canonical form, else descending id.
pub open spec fn effective_keys(sorts: Option<Vec<Sorting>>) -> Seq<SortKey> {
    match sorts {
        Some(ss) => if ss@.len() > 0 {
            ss@.map_values(|s: Sorting| (alias(s.field@), s.order))
        } else {
            seq![("id"@, Order::Desc)]
        },
        None => seq![("id"@, Order::Desc)],
    }
}

/// Why a query is refused, checked in this order: sort names, filter names,
/// filter values and operators, column names.
pub open spec fn list_fault(
    cfg: Config,
    columns: Option<Vec<String>>,
    filters: Option<Vec<Filter>>,
    sorts: Option<Vec<Sorting>>,
) -> Option<QueryFault> {
    let sn = sort_names(sorts);
    let fnm = filter_names(filters);
    let cn = expanded(cfg, requested(cfg, columns));
    if first_unknown(cfg, sn, false) >= 0 {
        Some(QueryFault::InvalidField(FieldContext::Sort, alias(sn[first_unknown(cfg, sn, false)])))
    } else if first_unknown(cfg, fnm, true) >= 0 {
        Some(QueryFault::InvalidField(FieldContext::Filter, alias(fnm[first_unknown(cfg, fnm, true)])))
    } else if filters_fault(given_filters(filters)) is Some {
        filters_fault(given_filters(filters))
    } else if first_unknown(cfg, cn, false) >= 0 {
        Some(QueryFault::InvalidField(column_context(columns), alias(cn[first_unknown(cfg, cn, false)])))
    } else {
        None
    }
}

/// The columns of a query, in canonical form.
pub open spec fn list_columns(cfg: Config, columns: Option<Vec<String>>) -> Seq<Seq<char>> {
    expanded(cfg, requested(cfg, columns)).map_values(|c: Seq<char>| alias(c))
}

/// The records a query lists, in order: those that pass the filters, sorted stably.
pub open spec fn listed_records(
    settings: Settings,
    users: Users,
    ds: Seq<(u32, String)>,
    issues: Seq<MetaView>,
    filters: Option<Vec<Filter>>,
    sorts: Option<Vec<Sorting>>,
) -> Seq<MetaView> {
    sorted_by(effective_keys(sorts), select(settings, users, ds, given_filters(filters), issues))
}

/// The rendered row of a record.
pub open spec fn row(cols: Seq<Seq<char>>, m: MetaView) -> Seq<Seq<char>> {
    cols.map_values(|c: Seq<char>| column_value(c, m))
}

proof fn lemma_alias_idempotent(f: Seq<char>)
    ensures
        alias(alias(f)) == alias(f),
{
    reveal_strlit("due-date");
    reveal_strlit("due_date");
    assert("due_date"@[3] != "due-date"@[3]);
}

fn copy_texts(v: &Vec<String>) -> (r: Vec<String>)
    ensures
        texts(r@) == texts(v@),
{
    let mut r: Vec<String> = Vec::new();
    let mut i: usize = 0;
    while i < v.len()
        invariant
            i <= v@.len(),
            texts(r@) == texts(v@.subrange(0, i as int)),
        decreases v@.len() - i,
    {
        let ghost before = r@;
        r.push(v[i].clone());
        i = i + 1;
        assert(texts(r@) =~= texts(v@.subrange(0, i as int))) by {
            assert(texts(r@) =~= texts(before).push(v@[i - 1]@));
        }
    }
    assert(v@.subrange(0, i as int) =~= v@);
    r
}

fn has_star(v: &Vec<String>) -> (r: bool)
    ensures
        r == texts(v@).contains("*"@),
{
    let mut i: usize = 0;
    while i < v.len()
        invariant
            i <= v@.len(),
            forall|k: int| 0 <= k < i ==> (#[trigger] v@[k])@ != "*"@,
        decreases v@.len() - i,
    {
        if same_text(v[i].as_str(), "*") {
            assert(texts(v@)[i as int] == "*"@);
            return true;
        }
        i = i + 1;
    }
    assert(!texts(v@).contains("*"@)) by {
        if texts(v@).contains("*"@) {
            let k = choose|k: int| 0 <= k < texts(v@).len() && texts(v@)[k] == "*"@;
            assert(texts(v@)[k] == v@[k]@);
        }
    }
    false
}

fn render_row(cols: &Vec<String>, meta: &Meta) -> (r: Vec<String>)
    ensures
        texts(r@) == row(texts(cols@), meta@),
{
    let ghost cs = texts(cols@);
    let mut r: Vec<String> = Vec::new();
    let mut i: usize = 0;
    while i < cols.len()
        invariant
            i <= cols@.len(),
            cs == texts(cols@),
            texts(r@) == row(cs.subrange(0, i as int), meta@),
        decreases cols@.len() - i,
    {
        let ghost before = r@;
        r.push(get_column_value(cols[i].as_str(), meta));
        i = i + 1;
        assert(texts(r@) =~= row(cs.subrange(0, i as int), meta@)) by {
            assert(texts(r@) =~= texts(before).push(column_value(cs[i - 1], meta@)));
        }
    }
    assert(cs.subrange(0, i as int) =~= cs);
    r
}

/// Lists issues: keeps those that pass every filter, sorts them on the sort
/// keys (descending id when none are given), and renders the columns asked
/// for (the configured default when none are given). Every name and value is
/// checked before any record is looked at.
pub fn list(
    config: &Config,
    settings: &Settings,
    users: &Users,
    issues: Vec<Meta>,
    descriptions: &Vec<(u32, String)>,
    columns: Option<Vec<String>>,
    filter: Option<Vec<Filter>>,
    sort: Option<Vec<Sorting>>,
) -> (r: Result<ListResult, QueryError>)
    requires
        config.wf(),
    ensures
        match r {
            Err(e) => list_fault(*config, columns, filter, sort) == Some(query_fault(e)),
            Ok(res) => {
                let cols = list_columns(*config, columns);
                let out = listed_records(
                    *settings,
                    *users,
                    descriptions@,
                    views(issues@),
                    filter,
                    sort,
                );
                &&& list_fault(*config, columns, filter, sort) is None
                &&& texts(res.columns@) == cols
                &&& res.issues@.len() == out.len()
                &&& forall|i: int|
                    0 <= i < out.len() ==> (#[trigger] res.issues@[i]).id == out[i].id && texts(
                        res.issues@[i].data@,
                    ) == row(cols, out[i])
            },
        },
{
    // sort keys
    let given = match &sort {
        Some(ss) => ss.len() > 0,
        None => false,
    };
    let keys: Vec<Sorting> = match &sort {
        Some(ss) if given => {
            let mut names: Vec<String> = Vec::new();
            let mut i: usize = 0;
            while i < ss.len()
                invariant
                    i <= ss@.len(),
                    names@.len() == i,
                    forall|k: int| 0 <= k < i ==> (#[trigger] names@[k])@ == ss@[k].field@,
                decreases ss@.len() - i,
            {
                names.push(ss[i].field.clone());
                i = i + 1;
            }
            assert(texts(names@) =~= sort_names(sort));
            let norm = resolve_fields(config, &names, FieldContext::Sort)?;
            let mut keys: Vec<Sorting> = Vec::new();
            let mut i: usize = 0;
            assert(texts(norm@).len() == norm@.len());
            assert(texts(names@).len() == names@.len());
            assert(names@.len() == ss@.len());
            while i < ss.len()
                invariant
                    i <= ss@.len() == norm@.len(),
                    names@.len() == ss@.len(),
                    texts(norm@) == texts(names@).map_values(|f: Seq<char>| alias(f)),
                    forall|k: int| 0 <= k < ss@.len() ==> (#[trigger] names@[k])@ == ss@[k].field@,
                    keys@.len() == i,
                    forall|k: int| 0 <= k < i ==> (#[trigger] keys@[k]).field@ == alias(ss@[k].field@)
                        && keys@[k].order == ss@[k].order,
                decreases ss@.len() - i,
            {
                assert(texts(norm@)[i as int] == norm@[i as int]@);
                assert(texts(names@)[i as int] == names@[i as int]@);
                assert(norm@[i as int]@ == alias(ss@[i as int].field@));
                keys.push(Sorting { field: norm[i].clone(), order: ss[i].order });
                i = i + 1;
            }
            assert(sort_keys(keys@) =~= effective_keys(sort));
            keys
        },
        _ => {
            proof {
                if sort is Some {
                    assert(sort_names(sort).len() == 0);
                }
            }
            let mut keys: Vec<Sorting> = Vec::new();
            keys.push(Sorting { field: String::from_str("id"), order: Order::Desc });
            assert(sort_keys(keys@) =~= effective_keys(sort));
            keys
        },
    };
    assert(first_unknown(*config, sort_names(sort), false) < 0) by {
        if sort is None {
            assert(sort_names(sort).len() == 0);
        }
    }
    // filters
    let filters: Vec<Filter> = match &filter {
        Some(fs) => {
            let mut names: Vec<String> = Vec::new();
            let mut i: usize = 0;
            while i < fs.len()
                invariant
                    i <= fs@.len(),
                    names@.len() == i,
                    forall|k: int| 0 <= k < i ==> (#[trigger] names@[k])@ == fs@[k].field@,
                decreases fs@.len() - i,
            {
                names.push(fs[i].field.clone());
                i = i + 1;
            }
            assert(texts(names@) =~= filter_names(filter));
            let norm = resolve_fields(config, &names, FieldContext::Filter)?;
            let mut out: Vec<Filter> = Vec::new();
            let mut i: usize = 0;
            assert(texts(norm@).len() == norm@.len());
            assert(texts(names@).len() == names@.len());
            assert(names@.len() == fs@.len());
            while i < fs.len()
                invariant
                    i <= fs@.len() == norm@.len(),
                    names@.len() == fs@.len(),
                    texts(norm@) == texts(names@).map_values(|f: Seq<char>| alias(f)),
                    forall|k: int| 0 <= k < fs@.len() ==> (#[trigger] names@[k])@ == fs@[k].field@,
                    out@.len() == i,
                    forall|k: int| 0 <= k < i ==> (#[trigger] out@[k]).field@ == alias(fs@[k].field@)
                        && out@[k].operator == fs@[k].operator && out@[k].value@ == fs@[k].value@,
                decreases fs@.len() - i,
            {
                assert(texts(norm@)[i as int] == norm@[i as int]@);
                assert(texts(names@)[i as int] == names@[i as int]@);
                assert(norm@[i as int]@ == alias(fs@[i as int].field@));
                out.push(
                    Filter {
                        field: norm[i].clone(),
                        operator: fs[i].operator,
                        value: fs[i].value.clone(),
                    },
                );
                i = i + 1;
            }
            proof {
                assert forall|k: int| 0 <= k < out@.len() implies alias((#[trigger] out@[k]).field@)
                    == out@[k].field@ by {
                    lemma_alias_idempotent(fs@[k].field@);
                }
                assert forall|k: int| 0 <= k < out@.len() implies #[trigger] filter_views(out@)[k]
                    == filter_views(fs@)[k] by {
                    lemma_alias_idempotent(fs@[k].field@);
                }
                assert(filter_views(out@) =~= given_filters(filter));
            }
            validate_filters(&out)?;
            out
        },
        None => {
            let out: Vec<Filter> = Vec::new();
            assert(filter_views(out@) =~= given_filters(filter));
            assert(filter_names(filter).len() == 0);
            assert(filters_fault(given_filters(filter)) is None);
            out
        },
    };
    // columns
    let requested_cols = match &columns {
        Some(c) => copy_texts(c),
        None => copy_texts(&config.list_columns),
    };
    let cols_in = if has_star(&requested_cols) {
        get_all_column_names(config)
    } else {
        requested_cols
    };
    assert(texts(cols_in@) == expanded(*config, requested(*config, columns)));
    let context = if columns.is_some() {
        FieldContext::Columns
    } else {
        FieldContext::DefaultColumns
    };
    let cols = resolve_fields(config, &cols_in, context)?;
    // records
    let kept = filter_records(&filters, issues, settings, users, descriptions);
    let sorted = sort_records(&keys, kept);
    let ghost out = views(sorted@);
    let mut rows: Vec<IssueData> = Vec::new();
    let mut i: usize = 0;
    while i < sorted.len()
        invariant
            i <= sorted@.len(),
            out == views(sorted@),
            rows@.len() == i,
            forall|k: int|
                0 <= k < i ==> (#[trigger] rows@[k]).id == out[k].id && texts(rows@[k].data@) == row(
                    texts(cols@),
                    out[k],
                ),
        decreases sorted@.len() - i,
    {
        let data = render_row(&cols, &sorted[i]);
        rows.push(IssueData { id: sorted[i].id, data });
        i = i + 1;
    }
    Ok(ListResult { issues: rows, columns: cols })
}

/// A `>` or `<` filter on `id` with the decimal notation of `k` holds of a
/// record exactly when its id is above, or below, `k`.
pub proof fn lemma_order_on_id(m: MetaView, k: u32)
    ensures
        order_holds(true, "id"@, decimal(k as nat), m) == (m.id > k),
        order_holds(false, "id"@, decimal(k as nat), m) == (m.id < k),
{
    crate::model::lemma_parse_decimal(k);
}

/// Sorting on priority alone, in direction `o`.
pub open spec fn by_priority(o: Order) -> Seq<SortKey> {
    seq![("priority"@, o)]
}

/// The integer that sorting on priority in direction `o` orders by.
pub open spec fn priority_key(o: Order, m: MetaView) -> int {
    if o == Order::Asc {
        rank(m.priority)
    } else {
        -rank(m.priority)
    }
}

pub open spec fn member(m: MetaView, s: Seq<MetaView>) -> bool {
    exists|j: int| 0 <= j < s.len() && s[j] == m
}

proof fn lemma_cmp_priority(o: Order, a: MetaView, b: MetaView)
    ensures
        cmp_keys(by_priority(o), a, b) == num_cmp(priority_key(o, a), priority_key(o, b)),
{
    reveal_strlit("priority");
    reveal_strlit("id");
    reveal_strlit("title");
    reveal_strlit("state");
    reveal_strlit("type");
    reveal_strlit("labels");
    reveal_strlit("reporter");
    reveal_strlit("assignee");
    let k = by_priority(o);
    assert(k[0].0 == "priority"@);
    assert("priority"@ != "id"@ && "priority"@ != "title"@ && "priority"@ != "state"@);
    assert("priority"@ != "type"@ && "priority"@ != "labels"@);
    assert("priority"@[0] != "reporter"@[0] || "priority"@[1] != "reporter"@[1]);
    assert("priority"@ != "assignee"@);
    assert(k.drop_first().len() == 0);
    assert(cmp_field("priority"@, a, b) == num_cmp(rank(a.priority), rank(b.priority)));
    assert(cmp_keys(k.drop_first(), a, b) == 0);
    let c = num_cmp(rank(a.priority), rank(b.priority));
    if o == Order::Desc {
        assert(cmp_keys(k, a, b) == flip(c));
    } else {
        assert(cmp_keys(k, a, b) == c);
    }
}

proof fn lemma_insert_pos_bounds(keys: Seq<SortKey>, r: Seq<MetaView>, x: MetaView)
    ensures
        0 <= insert_pos(keys, r, x) <= r.len(),
        forall|k: int| 0 <= k < insert_pos(keys, r, x) ==> cmp_keys(keys, #[trigger] r[k], x) <= 0,
        insert_pos(keys, r, x) < r.len() ==> cmp_keys(keys, r[insert_pos(keys, r, x)], x) > 0,
    decreases r.len(),
{
    if r.len() > 0 {
        let d = r.drop_last();
        lemma_insert_pos_bounds(keys, d, x);
        assert forall|k: int| 0 <= k < d.len() implies #[trigger] d[k] == r[k] by {}
        assert(r.last() == r[r.len() - 1]);
        let p = insert_pos(keys, d, x);
        assert forall|k: int| 0 <= k < insert_pos(keys, r, x) implies cmp_keys(
            keys,
            #[trigger] r[k],
            x,
        ) <= 0 by {
            if k < d.len() {
                assert(d[k] == r[k]);
                if p < r.len() - 1 {
                    assert(k < p);
                }
            }
        }
    }
}

/// Sorting on priority gives a sequence of the same records in order of
/// their priority key.
proof fn lemma_sorted_by_priority(o: Order, s: Seq<MetaView>)
    ensures
        sorted_by(by_priority(o), s).len() == s.len(),
        forall|i: int| 0 <= i < s.len() ==> member(#[trigger] sorted_by(by_priority(o), s)[i], s),
        forall|i: int, j: int|
            0 <= i < j < s.len() ==> priority_key(o, #[trigger] sorted_by(by_priority(o), s)[i])
                <= priority_key(o, #[trigger] sorted_by(by_priority(o), s)[j]),
    decreases s.len(),
{
    if s.len() > 0 {
        let keys = by_priority(o);
        let s1 = s.drop_last();
        let x = s.last();
        lemma_sorted_by_priority(o, s1);
        let r = sorted_by(keys, s1);
        lemma_insert_pos_bounds(keys, r, x);
        let p = insert_pos(keys, r, x);
        let t = r.insert(p, x);
        assert(t == sorted_by(keys, s));
        assert forall|k: int| 0 <= k < r.len() implies cmp_keys(keys, #[trigger] r[k], x) == num_cmp(
            priority_key(o, r[k]),
            priority_key(o, x),
        ) by {
            lemma_cmp_priority(o, r[k], x);
        }
        assert forall|i: int| 0 <= i < s.len() implies member(#[trigger] t[i], s) by {
            if i == p {
                assert(s[s.len() - 1] == x);
            } else {
                let i1 = if i < p {
                    i
                } else {
                    i - 1
                };
                assert(t[i] == r[i1]);
                assert(member(r[i1], s1));
                let j = choose|j: int| 0 <= j < s1.len() && s1[j] == r[i1];
                assert(s[j] == s1[j]);
            }
        }
        assert forall|i: int, j: int| 0 <= i < j < s.len() implies priority_key(o, #[trigger] t[i])
            <= priority_key(o, #[trigger] t[j]) by {
            if p < r.len() {
                assert(cmp_keys(keys, r[p], x) > 0);
            }
            if i < p && j == p {
                assert(cmp_keys(keys, r[i], x) <= 0);
            } else if i == p && j > p {
                assert(t[j] == r[j - 1]);
                if j - 1 > p {
                    assert(priority_key(o, r[p]) <= priority_key(o, r[j - 1]));
                }
            } else if i < p && j > p {
                assert(t[j] == r[j - 1]);
            } else if i > p {
                assert(t[i] == r[i - 1] && t[j] == r[j - 1]);
            }
        }
    }
}

/// Sorting records of pairwise distinct priorities in descending order gives
/// exactly the reverse of sorting them in ascending order.
#[verifier::rlimit(60)]
pub proof fn lemma_priority_sort_reverses(s: Seq<MetaView>)
    requires
        forall|i: int, j: int|
            0 <= i < j < s.len() ==> rank((#[trigger] s[i]).priority) != rank((#[trigger] s[j]).priority),
    ensures
        sorted_by(by_priority(Order::Desc), s) == sorted_by(by_priority(Order::Asc), s).reverse(),
    decreases s.len(),
{
    if s.len() > 0 {
        let s1 = s.drop_last();
        let x = s.last();
        assert forall|i: int, j: int| 0 <= i < j < s1.len() implies rank((#[trigger] s1[i]).priority)
            != rank((#[trigger] s1[j]).priority) by {
            assert(s1[i] == s[i] && s1[j] == s[j]);
        }
        lemma_priority_sort_reverses(s1);
        lemma_sorted_by_priority(Order::Asc, s1);
        let ka = by_priority(Order::Asc);
        let kd = by_priority(Order::Desc);
        let a = sorted_by(ka, s1);
        let d = sorted_by(kd, s1);
        let n = a.len();
        lemma_insert_pos_bounds(ka, a, x);
        let p = insert_pos(ka, a, x);
        assert forall|k: int| 0 <= k < n implies rank((#[trigger] a[k]).priority) != rank(x.priority) by {
            assert(member(a[k], s1));
            let j = choose|j: int| 0 <= j < s1.len() && s1[j] == a[k];
            assert(s[j] == a[k] && s[s.len() - 1] == x);
        }
        assert forall|k: int| 0 <= k < n implies cmp_keys(ka, #[trigger] a[k], x) == num_cmp(
            rank(a[k].priority),
            rank(x.priority),
        ) by {
            lemma_cmp_priority(Order::Asc, a[k], x);
        }
        assert forall|k: int| 0 <= k < n implies cmp_keys(kd, #[trigger] d[k], x) == num_cmp(
            -rank(d[k].priority),
            -rank(x.priority),
        ) by {
            lemma_cmp_priority(Order::Desc, d[k], x);
        }
        assert forall|k: int| 0 <= k < n - p implies cmp_keys(kd, #[trigger] d[k], x) <= 0 by {
            assert(d[k] == a[n - 1 - k]);
            if n - 1 - k > p {
                assert(rank(a[p].priority) <= rank(a[n - 1 - k].priority));
            }
            assert(cmp_keys(ka, a[p], x) > 0);
        }
        if n - p < n {
            assert(d[n - p] == a[p - 1]);
            assert(cmp_keys(ka, a[p - 1], x) <= 0);
        }
        lemma_insert_pos(kd, d, x, n - p);
        let ta = a.insert(p, x);
        let td = d.insert(n - p, x);
        assert(td =~= ta.reverse());
    }
}

/// Whether `c` orders like a comparison of three values: it is -1, 0 or 1 and
/// antisymmetric on each pair, and transitive.
pub open spec fn preorder3(ab: int, ba: int, bc: int, cb: int, ac: int, ca: int) -> bool {
    &&& -1 <= ab <= 1 && -1 <= bc <= 1 && -1 <= ac <= 1
    &&& ab == -ba && bc == -cb && ac == -ca
    &&& (ab <= 0 && bc <= 0 ==> ac <= 0)
    &&& (bc <= 0 && ca <= 0 ==> ba <= 0)
    &&& (ca <= 0 && ab <= 0 ==> cb <= 0)
    &&& (ba <= 0 && ac <= 0 ==> bc <= 0)
    &&& (ac <= 0 && cb <= 0 ==> ab <= 0)
    &&& (cb <= 0 && ba <= 0 ==> ca <= 0)
}

proof fn lemma_lex_pre(a: Seq<char>, b: Seq<char>, c: Seq<char>)
    ensures
        preorder3(lex(a, b), lex(b, a), lex(b, c), lex(c, b), lex(a, c), lex(c, a)),
    decreases a.len() + b.len() + c.len(),
{
    if a.len() > 0 && b.len() > 0 && c.len() > 0 {
        lemma_lex_pre(a.drop_first(), b.drop_first(), c.drop_first());
    } else if a.len() > 0 && b.len() > 0 {
        lemma_lex_pair(a, b);
    } else if b.len() > 0 && c.len() > 0 {
        lemma_lex_pair(b, c);
    } else if a.len() > 0 && c.len() > 0 {
        lemma_lex_pair(a, c);
    }
}

proof fn lemma_lex_pair(a: Seq<char>, b: Seq<char>)
    ensures
        lex(a, b) == -lex(b, a),
        -1 <= lex(a, b) <= 1,
    decreases a.len() + b.len(),
{
    if a.len() > 0 && b.len() > 0 {
        lemma_lex_pair(a.drop_first(), b.drop_first());
    }
}

proof fn lemma_lex_ids_pair(a: Seq<u32>, b: Seq<u32>)
    ensures
        lex_ids(a, b) == -lex_ids(b, a),
        -1 <= lex_ids(a, b) <= 1,
    decreases a.len() + b.len(),
{
    if a.len() > 0 && b.len() > 0 {
        lemma_lex_ids_pair(a.drop_first(), b.drop_first());
    }
}

proof fn lemma_lex_ids_pre(a: Seq<u32>, b: Seq<u32>, c: Seq<u32>)
    ensures
        preorder3(
            lex_ids(a, b),
            lex_ids(b, a),
            lex_ids(b, c),
            lex_ids(c, b),
            lex_ids(a, c),
            lex_ids(c, a),
        ),
    decreases a.len() + b.len() + c.len(),
{
    lemma_lex_ids_pair(a, b);
    lemma_lex_ids_pair(b, c);
    lemma_lex_ids_pair(a, c);
    if a.len() > 0 && b.len() > 0 && c.len() > 0 {
        lemma_lex_ids_pre(a.drop_first(), b.drop_first(), c.drop_first());
    }
}

proof fn lemma_lex_texts_pair(a: Seq<Seq<char>>, b: Seq<Seq<char>>)
    ensures
        lex_texts(a, b) == -lex_texts(b, a),
        -1 <= lex_texts(a, b) <= 1,
    decreases a.len() + b.len(),
{
    if a.len() > 0 && b.len() > 0 {
        lemma_lex_pair(a[0], b[0]);
        lemma_lex_texts_pair(a.drop_first(), b.drop_first());
    }
}

proof fn lemma_lex_texts_pre(a: Seq<Seq<char>>, b: Seq<Seq<char>>, c: Seq<Seq<char>>)
    ensures
        preorder3(
            lex_texts(a, b),
            lex_texts(b, a),
            lex_texts(b, c),
            lex_texts(c, b),
            lex_texts(a, c),
            lex_texts(c, a),
        ),
    decreases a.len() + b.len() + c.len(),
{
    lemma_lex_texts_pair(a, b);
    lemma_lex_texts_pair(b, c);
    lemma_lex_texts_pair(a, c);
    if a.len() > 0 && b.len() > 0 && c.len() > 0 {
        lemma_lex_pre(a[0], b[0], c[0]);
        lemma_lex_texts_pre(a.drop_first(), b.drop_first(), c.drop_first());
    }
}

proof fn lemma_cmp_field_pre(f: Seq<char>, a: MetaView, b: MetaView, c: MetaView)
    ensures
        preorder3(
            cmp_field(f, a, b),
            cmp_field(f, b, a),
            cmp_field(f, b, c),
            cmp_field(f, c, b),
            cmp_field(f, a, c),
            cmp_field(f, c, a),
        ),
{
    if f == "id"@ {
    } else if f == "title"@ {
        lemma_lex_pre(a.title, b.title, c.title);
    } else if f == "state"@ {
        lemma_lex_pre(a.state, b.state, c.state);
    } else if f == "type"@ {
        lemma_lex_pre(a.type_, b.type_, c.type_);
    } else if f == "labels"@ {
        lemma_lex_texts_pre(a.labels, b.labels, c.labels);
    } else if f == "reporter"@ {
        lemma_lex_pre(a.reporter, b.reporter, c.reporter);
    } else if f == "assignee"@ {
        lemma_lex_pre(a.assignee, b.assignee, c.assignee);
    } else if f == "priority"@ {
    } else if f == "due_date"@ {
        lemma_lex_pre(a.due_date, b.due_date, c.due_date);
    } else if f == "created"@ {
        lemma_lex_pre(a.created, b.created, c.created);
    } else if f == "updated"@ {
        lemma_lex_pre(a.updated, b.updated, c.updated);
    } else {
        lemma_cmp_relationship_pre(f, a, b, c);
    }
}

#[verifier::rlimit(60)]
proof fn lemma_cmp_relationship_pre(f: Seq<char>, a: MetaView, b: MetaView, c: MetaView)
    ensures
        ({
            let r = |x: MetaView, y: MetaView|
                match (lookup(x.relationships, f), lookup(y.relationships, f)) {
                    (Some(p), Some(q)) => lex_ids(p, q),
                    (Some(_), None) => 1,
                    (None, Some(_)) => -1,
                    (None, None) => 0,
                };
            preorder3(r(a, b), r(b, a), r(b, c), r(c, b), r(a, c), r(c, a))
        }),
{
    let (la, lb, lc) = (lookup(a.relationships, f), lookup(b.relationships, f), lookup(
        c.relationships,
        f,
    ));
    if la is Some && lb is Some && lc is Some {
        lemma_lex_ids_pre(la->0, lb->0, lc->0);
    } else if la is Some && lb is Some {
        lemma_lex_ids_pair(la->0, lb->0);
    } else if lb is Some && lc is Some {
        lemma_lex_ids_pair(lb->0, lc->0);
    } else if la is Some && lc is Some {
        lemma_lex_ids_pair(la->0, lc->0);
    }
}

proof fn lemma_cmp_keys_pre(keys: Seq<SortKey>, a: MetaView, b: MetaView, c: MetaView)
    ensures
        preorder3(
            cmp_keys(keys, a, b),
            cmp_keys(keys, b, a),
            cmp_keys(keys, b, c),
            cmp_keys(keys, c, b),
            cmp_keys(keys, a, c),
            cmp_keys(keys, c, a),
        ),
    decreases keys.len(),
{
    if keys.len() > 0 {
        lemma_cmp_field_pre(keys[0].0, a, b, c);
        lemma_cmp_keys_pre(keys.drop_first(), a, b, c);
    }
}

/// Sorting yields the records in order of the key chain.
proof fn lemma_sorted_by_ordered(keys: Seq<SortKey>, s: Seq<MetaView>)
    ensures
        sorted_by(keys, s).len() == s.len(),
        forall|i: int, j: int|
            0 <= i < j < s.len() ==> cmp_keys(keys, #[trigger] sorted_by(keys, s)[i], #[trigger] sorted_by(keys, s)[j]) <= 0,
    decreases s.len(),
{
    if s.len() > 0 {
        let s1 = s.drop_last();
        let x = s.last();
        lemma_sorted_by_ordered(keys, s1);
        let r = sorted_by(keys, s1);
        lemma_insert_pos_bounds(keys, r, x);
        let p = insert_pos(keys, r, x);
        let t = r.insert(p, x);
        assert(t == sorted_by(keys, s));
        assert forall|j: int| p <= j < r.len() implies cmp_keys(keys, #[trigger] r[j], x) > 0 by {
            lemma_cmp_keys_pre(keys, x, r[p], r[j]);
        }
        assert forall|i: int, j: int| 0 <= i < j < t.len() implies cmp_keys(keys, #[trigger] t[i], #[trigger] t[j]) <= 0 by {
            if i < p && j == p {
                assert(cmp_keys(keys, r[i], x) <= 0);
            } else if i == p && j > p {
                assert(t[j] == r[j - 1]);
                lemma_cmp_keys_pre(keys, x, r[j - 1], x);
            } else if i < p && j > p {
                assert(t[i] == r[i] && t[j] == r[j - 1]);
            } else if i > p {
                assert(t[i] == r[i - 1] && t[j] == r[j - 1]);
            } else {
                assert(t[i] == r[i] && t[j] == r[j]);
            }
        }
    }
}

/// The records that tie with `y` on the key chain, in their order.
pub open spec fn ties(keys: Seq<SortKey>, s: Seq<MetaView>, y: MetaView) -> Seq<MetaView>
    decreases s.len(),
{
    if s.len() == 0 {
        s
    } else {
        let r = ties(keys, s.drop_last(), y);
        if cmp_keys(keys, s.last(), y) == 0 {
            r.push(s.last())
        } else {
            r
        }
    }
}

proof fn lemma_ties_concat(keys: Seq<SortKey>, a: Seq<MetaView>, b: Seq<MetaView>, y: MetaView)
    ensures
        ties(keys, a + b, y) == ties(keys, a, y) + ties(keys, b, y),
    decreases b.len(),
{
    if b.len() == 0 {
        assert(a + b =~= a);
        assert(ties(keys, a, y) + ties(keys, b, y) =~= ties(keys, a, y));
    } else {
        lemma_ties_concat(keys, a, b.drop_last(), y);
        assert((a + b).drop_last() =~= a + b.drop_last());
        assert((a + b).last() == b.last());
        if cmp_keys(keys, b.last(), y) == 0 {
            assert(ties(keys, a, y) + ties(keys, b.drop_last(), y).push(b.last()) =~= (ties(keys, a, y)
                + ties(keys, b.drop_last(), y)).push(b.last()));
        }
    }
}

proof fn lemma_ties_none(keys: Seq<SortKey>, b: Seq<MetaView>, y: MetaView)
    requires
        forall|i: int| 0 <= i < b.len() ==> cmp_keys(keys, #[trigger] b[i], y) != 0,
    ensures
        ties(keys, b, y) == Seq::<MetaView>::empty(),
    decreases b.len(),
{
    if b.len() > 0 {
        assert forall|i: int| 0 <= i < b.drop_last().len() implies cmp_keys(
            keys,
            #[trigger] b.drop_last()[i],
            y,
        ) != 0 by {
            assert(b.drop_last()[i] == b[i]);
        }
        lemma_ties_none(keys, b.drop_last(), y);
        assert(b.last() == b[b.len() - 1]);
    }
}

/// Sorting is stable: for every record `y`, the records that tie with `y` on
/// the sort keys come out in the order they came in.
pub proof fn lemma_sort_stable(keys: Seq<SortKey>, s: Seq<MetaView>, y: MetaView)
    ensures
        ties(keys, sorted_by(keys, s), y) == ties(keys, s, y),
    decreases s.len(),
{
    if s.len() > 0 {
        let s1 = s.drop_last();
        let x = s.last();
        lemma_sort_stable(keys, s1, y);
        lemma_sorted_by_ordered(keys, s1);
        let a = sorted_by(keys, s1);
        lemma_insert_pos_bounds(keys, a, x);
        let p = insert_pos(keys, a, x);
        let front = a.subrange(0, p);
        let back = a.subrange(p, a.len() as int);
        assert(a =~= front + back);
        assert(a.insert(p, x) =~= front + seq![x] + back);
        lemma_ties_concat(keys, front, back, y);
        lemma_ties_concat(keys, front + seq![x], back, y);
        lemma_ties_concat(keys, front, seq![x], y);
        assert(seq![x].drop_last() =~= Seq::<MetaView>::empty());
        assert(seq![x].last() == x);
        assert(sorted_by(keys, s) == a.insert(p, x));
        assert(s1.push(x) =~= s);
        assert(ties(keys, Seq::<MetaView>::empty(), y) == Seq::<MetaView>::empty());
        assert(ties(keys, seq![x].drop_last(), y) == Seq::<MetaView>::empty());
        if cmp_keys(keys, x, y) == 0 {
            assert forall|i: int| 0 <= i < back.len() implies cmp_keys(keys, #[trigger] back[i], y) != 0 by {
                assert(back[i] == a[p + i]);
                lemma_cmp_keys_pre(keys, x, a[p], a[p + i]);
                lemma_cmp_keys_pre(keys, a[p + i], y, x);
            }
            lemma_ties_none(keys, back, y);
            assert(ties(keys, seq![x], y) =~= seq![x]);
            assert(ties(keys, a, y) =~= ties(keys, front, y));
            assert(ties(keys, a.insert(p, x), y) =~= ties(keys, front, y).push(x));
        } else {
            assert(ties(keys, seq![x], y) =~= Seq::<MetaView>::empty());
            assert(ties(keys, a.insert(p, x), y) =~= ties(keys, a, y));
        }
    }
}

} // verus!
