//! The relationship subsystem: adds and removes links between issues, and
//! mirrors each change onto the linked issues where the relationship type has
//! an inverse.
use crate::model::{same_text, Config, Meta, MetaView, RelationshipLink};
use crate::relmap::{find_key, lookup, rel_get, rel_insert, store};
use vstd::prelude::*;

verus! {

/// Whether a link request adds or removes targets.
#[derive(Clone, Copy, Debug, PartialEq, Eq, Structural)]
pub enum Action {
    Add,
    Remove,
}

/// Why a link request failed.
#[derive(Clone, Debug)]
pub enum LinkError {
    /// The issue, or a target issue, does not exist.
    NotFound(u32),
    /// The relationship type is not configured.
    UnknownRelationship(String),
    /// An issue cannot be linked to itself.
    SelfLink,
    /// The request would not change the source issue.
    NoOp,
}

/// The content of a `LinkError`.
pub ghost enum LinkFault {
    NotFound(u32),
    UnknownRelationship(Seq<char>),
    SelfLink,
    NoOp,
}

pub open spec fn fault(e: LinkError) -> LinkFault {
    match e {
        LinkError::NotFound(id) => LinkFault::NotFound(id),
        LinkError::UnknownRelationship(n) => LinkFault::UnknownRelationship(n@),
        LinkError::SelfLink => LinkFault::SelfLink,
        LinkError::NoOp => LinkFault::NoOp,
    }
}

pub open spec fn outcome(r: Result<(), LinkError>) -> Option<LinkFault> {
    match r {
        Ok(()) => None,
        Err(e) => Some(fault(e)),
    }
}

impl LinkError {
    /// A message that describes the error.
    pub fn message(&self) -> String {
        match self {
            LinkError::NotFound(_) => String::from_str("Invalid ID: the issue does not exist."),
            LinkError::UnknownRelationship(n) => String::from_str("Invalid relationship: \"").concat(
                n.as_str(),
            ).concat("\". Configurable in config.yaml:relationships"),
            LinkError::SelfLink => String::from_str(
                "Invalid target ID: cannot link issue to itself.",
            ),
            LinkError::NoOp => String::from_str("No changes made to relationships"),
        }
    }
}

pub open spec fn views(v: Seq<Meta>) -> Seq<MetaView> {
    v.map_values(|m: Meta| m@)
}

/// The position of the first record with `id`, or -1.
pub open spec fn index_of(s: Seq<MetaView>, id: u32) -> int
    decreases s.len(),
{
    if s.len() == 0 {
        -1
    } else {
        let i = index_of(s.drop_last(), id);
        if i >= 0 {
            i
        } else if s.last().id == id {
            s.len() - 1
        } else {
            -1
        }
    }
}

pub proof fn lemma_index_of(s: Seq<MetaView>, id: u32)
    ensures
        -1 <= index_of(s, id) < s.len(),
        index_of(s, id) >= 0 ==> s[index_of(s, id)].id == id,
        index_of(s, id) < 0 ==> forall|j: int| 0 <= j < s.len() ==> (#[trigger] s[j]).id != id,
        forall|j: int| 0 <= j < index_of(s, id) ==> (#[trigger] s[j]).id != id,
    decreases s.len(),
{
    if s.len() > 0 {
        lemma_index_of(s.drop_last(), id);
        assert forall|j: int| 0 <= j < s.len() - 1 implies s.drop_last()[j] == #[trigger] s[j] by {}
    }
}

/// Records with the same ids at each position have their first-index lookups agree.
proof fn lemma_index_of_same_ids(a: Seq<MetaView>, b: Seq<MetaView>, id: u32)
    requires
        a.len() == b.len(),
        forall|j: int| 0 <= j < a.len() ==> (#[trigger] a[j]).id == b[j].id,
    ensures
        index_of(a, id) == index_of(b, id),
    decreases a.len(),
{
    if a.len() > 0 {
        lemma_index_of_same_ids(a.drop_last(), b.drop_last(), id);
        assert(a.last().id == b.last().id);
    }
}

/// The first record with `id`.
pub fn find_record(s: &Vec<Meta>, id: u32) -> (r: Option<usize>)
    ensures
        match r {
            Some(i) => i as int == index_of(views(s@), id) && i < s@.len(),
            None => index_of(views(s@), id) < 0,
        },
{
    let mut i: usize = 0;
    while i < s.len()
        invariant
            i <= s@.len(),
            forall|j: int| 0 <= j < i ==> (#[trigger] s@[j]).id != id,
        decreases s@.len() - i,
    {
        if s[i].id == id {
            proof {
                let v = views(s@);
                lemma_index_of(v, id);
                assert(v[i as int].id == id);
                if 0 <= index_of(v, id) < i {
                    assert(v[index_of(v, id)].id == s@[index_of(v, id)].id);
                }
                assert(index_of(v, id) >= 0);
                assert(index_of(v, id) <= i);
            }
            return Some(i);
        }
        i = i + 1;
    }
    proof {
        let v = views(s@);
        lemma_index_of(v, id);
        if index_of(v, id) >= 0 {
            assert(v[index_of(v, id)].id == s@[index_of(v, id)].id);
        }
    }
    None
}

/// The inverse configured for relationship `name`: `None` when `name` is not
/// configured, `Some(None)` when it has no inverse.
pub open spec fn inverse_of(rs: Seq<(String, crate::model::Relationship)>, name: Seq<char>) -> Option<
    Option<Seq<char>>,
>
    decreases rs.len(),
{
    if rs.len() == 0 {
        None
    } else if rs[0].0@ == name {
        Some(
            match rs[0].1.link {
                Some(l) => Some(l@),
                None => None,
            },
        )
    } else {
        inverse_of(rs.drop_first(), name)
    }
}

pub open spec fn opt_text(o: Option<String>) -> Option<Seq<char>> {
    match o {
        Some(t) => Some(t@),
        None => None,
    }
}

pub fn find_inverse(config: &Config, name: &str) -> (r: Option<Option<String>>)
    ensures
        r is None ==> inverse_of(config.relationships@, name@) is None,
        r is Some ==> inverse_of(config.relationships@, name@) == Some(opt_text(r->0)),
{
    let rs = &config.relationships;
    let mut i: usize = 0;
    assert(rs@.subrange(0, rs@.len() as int) =~= rs@);
    while i < rs.len()
        invariant
            i <= rs@.len(),
            rs@ == config.relationships@,
            inverse_of(rs@, name@) == inverse_of(rs@.subrange(i as int, rs@.len() as int), name@),
        decreases rs@.len() - i,
    {
        let ghost rest = rs@.subrange(i as int, rs@.len() as int);
        assert(rest.drop_first() =~= rs@.subrange(i + 1, rs@.len() as int));
        assert(rest[0] == rs@[i as int]);
        if same_text(rs[i].0.as_str(), name) {
            assert(inverse_of(rs@, name@) == Some(
                match rs@[i as int].1.link {
                    Some(l) => Some(l@),
                    None => None::<Seq<char>>,
                },
            ));
            match &rs[i].1.link {
                Some(l) => {
                    let c = l.clone();
                    return Some(Some(c));
                },
                None => {
                    return Some(None);
                },
            }
        }
        i = i + 1;
    }
    assert(rs@.subrange(i as int, rs@.len() as int).len() == 0);
    None
}

/// `l` with each of `ts` appended that it does not hold yet.
pub open spec fn add_ids(l: Seq<u32>, ts: Seq<u32>) -> Seq<u32>
    decreases ts.len(),
{
    if ts.len() == 0 {
        l
    } else {
        let a = add_ids(l, ts.drop_last());
        if a.contains(ts.last()) {
            a
        } else {
            a.push(ts.last())
        }
    }
}

/// `l` without any of `ts`.
pub open spec fn remove_ids(l: Seq<u32>, ts: Seq<u32>) -> Seq<u32>
    decreases l.len(),
{
    if l.len() == 0 {
        l
    } else {
        let r = remove_ids(l.drop_last(), ts);
        if ts.contains(l.last()) {
            r
        } else {
            r.push(l.last())
        }
    }
}

pub open spec fn revise(l: Seq<u32>, action: Action, ts: Seq<u32>) -> Seq<u32> {
    match action {
        Action::Add => add_ids(l, ts),
        Action::Remove => remove_ids(l, ts),
    }
}

/// The ids a record holds under relationship `k`; none when `k` is absent.
pub open spec fn ids_under(m: MetaView, k: Seq<char>) -> Seq<u32> {
    match lookup(m.relationships, k) {
        Some(v) => v,
        None => Seq::empty(),
    }
}

/// The record with `v` stored under `k`, stamped with `now`.
pub open spec fn relink(m: MetaView, k: Seq<char>, v: Seq<u32>, now: Seq<char>) -> MetaView {
    MetaView { relationships: store(m.relationships, k, v), updated: now, ..m }
}

/// The records after the mirrored change of `id` under `inv` on each target.
/// A target with nothing to change stays as it is.
pub open spec fn mirror(
    s: Seq<MetaView>,
    ts: Seq<u32>,
    inv: Seq<char>,
    id: u32,
    action: Action,
    now: Seq<char>,
) -> Seq<MetaView>
    decreases ts.len(),
{
    if ts.len() == 0 {
        s
    } else {
        let s1 = mirror(s, ts.drop_last(), inv, id, action, now);
        let j = index_of(s1, ts.last());
        if j < 0 {
            s1
        } else {
            let l = ids_under(s1[j], inv);
            let n = revise(l, action, seq![id]);
            if n.len() == l.len() {
                s1
            } else {
                s1.update(j, relink(s1[j], inv, n, now))
            }
        }
    }
}

/// The records after one link request entry, or `None` when it would not change the source.
pub open spec fn apply_entry(
    s: Seq<MetaView>,
    cfg: Config,
    action: Action,
    id: u32,
    e: RelationshipLink,
    now: Seq<char>,
) -> Option<Seq<MetaView>> {
    let i = index_of(s, id);
    let name = e.relationship@;
    let l = ids_under(s[i], name);
    let n = revise(l, action, e.target_ids@);
    if i < 0 || n.len() == l.len() {
        None
    } else {
        let s1 = s.update(i, relink(s[i], name, n, now));
        match inverse_of(cfg.relationships@, name) {
            Some(Some(inv)) => Some(mirror(s1, e.target_ids@, inv, id, action, now)),
            _ => Some(s1),
        }
    }
}

/// The records after the entries `es`, in order; `Err` holds the records as
/// they stood when an entry would not change the source.
pub open spec fn run_entries(
    s: Seq<MetaView>,
    cfg: Config,
    action: Action,
    id: u32,
    es: Seq<RelationshipLink>,
    now: Seq<char>,
) -> Result<Seq<MetaView>, Seq<MetaView>>
    decreases es.len(),
{
    if es.len() == 0 {
        Ok(s)
    } else {
        match apply_entry(s, cfg, action, id, es[0], now) {
            None => Err(s),
            Some(s1) => run_entries(s1, cfg, action, id, es.drop_first(), now),
        }
    }
}

/// The first fault among the targets: a missing issue, or the source itself.
pub open spec fn targets_fault(s: Seq<MetaView>, id: u32, ts: Seq<u32>) -> Option<LinkFault>
    decreases ts.len(),
{
    if ts.len() == 0 {
        None
    } else if index_of(s, ts[0]) < 0 {
        Some(LinkFault::NotFound(ts[0]))
    } else if ts[0] == id {
        Some(LinkFault::SelfLink)
    } else {
        targets_fault(s, id, ts.drop_first())
    }
}

/// The first fault among the entries: an unknown relationship type, or a bad target.
pub open spec fn entries_fault(s: Seq<MetaView>, cfg: Config, id: u32, es: Seq<RelationshipLink>) -> Option<
    LinkFault,
>
    decreases es.len(),
{
    if es.len() == 0 {
        None
    } else if inverse_of(cfg.relationships@, es[0].relationship@) is None {
        Some(LinkFault::UnknownRelationship(es[0].relationship@))
    } else {
        match targets_fault(s, id, es[0].target_ids@) {
            Some(f) => Some(f),
            None => entries_fault(s, cfg, id, es.drop_first()),
        }
    }
}

pub open spec fn entries_of(o: Option<Vec<RelationshipLink>>) -> Seq<RelationshipLink> {
    match o {
        Some(v) => v@,
        None => Seq::empty(),
    }
}

/// The records after a whole link request, and its fault if any. Faults of
/// validation leave every record as it is; a request entry without effect on
/// the source stops the request, after the entries before it took effect.
pub open spec fn link_outcome(
    s: Seq<MetaView>,
    cfg: Config,
    id: u32,
    adds: Seq<RelationshipLink>,
    removes: Seq<RelationshipLink>,
    now: Seq<char>,
) -> (Seq<MetaView>, Option<LinkFault>) {
    if index_of(s, id) < 0 {
        (s, Some(LinkFault::NotFound(id)))
    } else if entries_fault(s, cfg, id, adds) is Some {
        (s, entries_fault(s, cfg, id, adds))
    } else if entries_fault(s, cfg, id, removes) is Some {
        (s, entries_fault(s, cfg, id, removes))
    } else {
        match run_entries(s, cfg, Action::Add, id, adds, now) {
            Err(s1) => (s1, Some(LinkFault::NoOp)),
            Ok(s1) => match run_entries(s1, cfg, Action::Remove, id, removes, now) {
                Err(s2) => (s2, Some(LinkFault::NoOp)),
                Ok(s2) => (s2, None),
            },
        }
    }
}

pub fn has_id(v: &Vec<u32>, x: u32) -> (r: bool)
    ensures
        r == v@.contains(x),
{
    let mut i: usize = 0;
    while i < v.len()
        invariant
            i <= v@.len(),
            forall|j: int| 0 <= j < i ==> v@[j] != x,
        decreases v@.len() - i,
    {
        if v[i] == x {
            return true;
        }
        i = i + 1;
    }
    false
}

fn copy_ids(v: &Vec<u32>) -> (r: Vec<u32>)
    ensures
        r@ == v@,
{
    let mut r: Vec<u32> = Vec::new();
    let mut i: usize = 0;
    while i < v.len()
        invariant
            i <= v@.len(),
            r@ == v@.subrange(0, i as int),
        decreases v@.len() - i,
    {
        r.push(v[i]);
        i = i + 1;
        assert(r@ =~= v@.subrange(0, i as int));
    }
    assert(r@ =~= v@);
    r
}

/// The list after the change: targets appended once each, or removed.
pub fn revise_ids(l: &Vec<u32>, action: Action, ts: &Vec<u32>) -> (r: Vec<u32>)
    ensures
        r@ == revise(l@, action, ts@),
{
    match action {
        Action::Add => {
            let mut r = copy_ids(l);
            let mut k: usize = 0;
            while k < ts.len()
                invariant
                    k <= ts@.len(),
                    r@ == add_ids(l@, ts@.subrange(0, k as int)),
                decreases ts@.len() - k,
            {
                let t = ts[k];
                proof {
                    let p = ts@.subrange(0, k + 1);
                    assert(p.drop_last() =~= ts@.subrange(0, k as int));
                    assert(p.last() == t);
                }
                if !has_id(&r, t) {
                    r.push(t);
                }
                k = k + 1;
            }
            assert(ts@.subrange(0, ts@.len() as int) =~= ts@);
            r
        },
        Action::Remove => {
            let mut r: Vec<u32> = Vec::new();
            let mut k: usize = 0;
            while k < l.len()
                invariant
                    k <= l@.len(),
                    r@ == remove_ids(l@.subrange(0, k as int), ts@),
                decreases l@.len() - k,
            {
                let x = l[k];
                proof {
                    let p = l@.subrange(0, k + 1);
                    assert(p.drop_last() =~= l@.subrange(0, k as int));
                    assert(p.last() == x);
                }
                if !has_id(ts, x) {
                    r.push(x);
                }
                k = k + 1;
            }
            assert(l@.subrange(0, l@.len() as int) =~= l@);
            r
        },
    }
}

/// The ids that record `i` holds under `name`.
fn ids_at(s: &Vec<Meta>, i: usize, name: &str) -> (r: Vec<u32>)
    requires
        i < s@.len(),
    ensures
        r@ == ids_under(views(s@)[i as int], name@),
{
    match rel_get(&s[i].relationships, name) {
        Some(v) => copy_ids(v),
        None => Vec::new(),
    }
}

/// Stores `ids` under `name` in record `i` and stamps it with `now`.
fn relink_at(s: &mut Vec<Meta>, i: usize, name: &str, ids: Vec<u32>, now: &str)
    requires
        i < old(s)@.len(),
    ensures
        views(final(s)@) == views(old(s)@).update(
            i as int,
            relink(views(old(s)@)[i as int], name@, ids@, now@),
        ),
{
    let ghost before = views(s@);
    let mut m = s.remove(i);
    rel_insert(&mut m.relationships, String::from_str(name), ids);
    m.updated = String::from_str(now);
    s.insert(i, m);
    assert(views(s@) =~= before.update(i as int, relink(before[i as int], name@, ids@, now@)));
}

/// Applies one entry of a link request to the records; fails with `NoOp`,
/// leaving them as they are, when the source would not change.
pub fn update_relationship(
    s: &mut Vec<Meta>,
    config: &Config,
    action: Action,
    id: u32,
    entry: &RelationshipLink,
    now: &str,
) -> (r: Result<(), LinkError>)
    requires
        index_of(views(old(s)@), id) >= 0,
    ensures
        match apply_entry(views(old(s)@), *config, action, id, *entry, now@) {
            None => r matches Err(LinkError::NoOp) && final(s)@ == old(s)@,
            Some(after) => r is Ok && views(final(s)@) == after,
        },
{
    let i = match find_record(s, id) {
        Some(i) => i,
        None => {
            return Err(LinkError::NoOp);
        },
    };
    let name = entry.relationship.as_str();
    let l = ids_at(s, i, name);
    let n = revise_ids(&l, action, &entry.target_ids);
    if n.len() == l.len() {
        return Err(LinkError::NoOp);
    }
    relink_at(s, i, name, n, now);
    let inv = match find_inverse(config, name) {
        Some(Some(inv)) => inv,
        _ => {
            return Ok(());
        },
    };
    let ghost s1 = views(s@);
    let ts = &entry.target_ids;
    let mut k: usize = 0;
    while k < ts.len()
        invariant
            k <= ts@.len(),
            ts@ == entry.target_ids@,
            views(s@) == mirror(s1, ts@.subrange(0, k as int), inv@, id, action, now@),
        decreases ts@.len() - k,
    {
        let t = ts[k];
        proof {
            let p = ts@.subrange(0, k + 1);
            assert(p.drop_last() =~= ts@.subrange(0, k as int));
            assert(p.last() == t);
        }
        match find_record(s, t) {
            Some(j) => {
                let one = vec![id];
                assert(one@ =~= seq![id]);
                let tl = ids_at(s, j, inv.as_str());
                let tn = revise_ids(&tl, action, &one);
                if tn.len() != tl.len() {
                    relink_at(s, j, inv.as_str(), tn, now);
                }
            },
            None => {},
        }
        k = k + 1;
    }
    assert(ts@.subrange(0, ts@.len() as int) =~= ts@);
    Ok(())
}

/// The first fault among the targets of one entry.
fn check_target_ids(s: &Vec<Meta>, id: u32, ts: &Vec<u32>) -> (r: Result<(), LinkError>)
    ensures
        outcome(r) == targets_fault(views(s@), id, ts@),
{
    let mut k: usize = 0;
    assert(ts@.subrange(0, ts@.len() as int) =~= ts@);
    while k < ts.len()
        invariant
            k <= ts@.len(),
            targets_fault(views(s@), id, ts@) == targets_fault(
                views(s@),
                id,
                ts@.subrange(k as int, ts@.len() as int),
            ),
        decreases ts@.len() - k,
    {
        let ghost rest = ts@.subrange(k as int, ts@.len() as int);
        assert(rest.drop_first() =~= ts@.subrange(k + 1, ts@.len() as int));
        let t = ts[k];
        assert(rest[0] == t);
        if find_record(s, t).is_none() {
            return Err(LinkError::NotFound(t));
        }
        if t == id {
            return Err(LinkError::SelfLink);
        }
        k = k + 1;
    }
    Ok(())
}

/// The first fault among the entries of a request.
fn validate_relationships(s: &Vec<Meta>, config: &Config, id: u32, es: &Vec<RelationshipLink>) -> (r:
    Result<(), LinkError>)
    ensures
        outcome(r) == entries_fault(views(s@), *config, id, es@),
{
    let mut k: usize = 0;
    assert(es@.subrange(0, es@.len() as int) =~= es@);
    while k < es.len()
        invariant
            k <= es@.len(),
            entries_fault(views(s@), *config, id, es@) == entries_fault(
                views(s@),
                *config,
                id,
                es@.subrange(k as int, es@.len() as int),
            ),
        decreases es@.len() - k,
    {
        let ghost rest = es@.subrange(k as int, es@.len() as int);
        assert(rest.drop_first() =~= es@.subrange(k + 1, es@.len() as int));
        let e = &es[k];
        assert(rest[0] == *e);
        if find_inverse(config, e.relationship.as_str()).is_none() {
            return Err(LinkError::UnknownRelationship(e.relationship.clone()));
        }
        check_target_ids(s, id, &e.target_ids)?;
        k = k + 1;
    }
    Ok(())
}

/// Applies the entries in order; stops at the first that would not change the source.
fn run_all(
    s: &mut Vec<Meta>,
    config: &Config,
    action: Action,
    id: u32,
    es: &Vec<RelationshipLink>,
    now: &str,
) -> (r: Result<(), LinkError>)
    requires
        index_of(views(old(s)@), id) >= 0,
    ensures
        match run_entries(views(old(s)@), *config, action, id, es@, now@) {
            Ok(after) => r is Ok && views(final(s)@) == after,
            Err(after) => r matches Err(LinkError::NoOp) && views(final(s)@) == after,
        },
        index_of(views(final(s)@), id) >= 0,
{
    let mut k: usize = 0;
    assert(es@.subrange(0, es@.len() as int) =~= es@);
    while k < es.len()
        invariant
            k <= es@.len(),
            index_of(views(s@), id) >= 0,
            run_entries(views(old(s)@), *config, action, id, es@, now@) == run_entries(
                views(s@),
                *config,
                action,
                id,
                es@.subrange(k as int, es@.len() as int),
                now@,
            ),
        decreases es@.len() - k,
    {
        let ghost rest = es@.subrange(k as int, es@.len() as int);
        assert(rest.drop_first() =~= es@.subrange(k + 1, es@.len() as int));
        let ghost before = views(s@);
        assert(rest[0] == es@[k as int]);
        let r = update_relationship(s, config, action, id, &es[k], now);
        if r.is_err() {
            return r;
        }
        proof {
            lemma_mirror_keeps_ids(before, *config, action, id, es@[k as int], now@);
            lemma_index_of_same_ids(before, views(s@), id);
        }
        k = k + 1;
    }
    assert(es@.subrange(k as int, es@.len() as int) =~= Seq::<RelationshipLink>::empty());
    Ok(())
}

proof fn lemma_mirror_ids(
    s: Seq<MetaView>,
    ts: Seq<u32>,
    inv: Seq<char>,
    id: u32,
    action: Action,
    now: Seq<char>,
)
    ensures
        mirror(s, ts, inv, id, action, now).len() == s.len(),
        forall|j: int|
            0 <= j < s.len() ==> (#[trigger] mirror(s, ts, inv, id, action, now)[j]).id == s[j].id,
    decreases ts.len(),
{
    if ts.len() > 0 {
        lemma_mirror_ids(s, ts.drop_last(), inv, id, action, now);
        let s1 = mirror(s, ts.drop_last(), inv, id, action, now);
        lemma_index_of(s1, ts.last());
    }
}

proof fn lemma_mirror_keeps_ids(
    s: Seq<MetaView>,
    cfg: Config,
    action: Action,
    id: u32,
    e: RelationshipLink,
    now: Seq<char>,
)
    ensures
        apply_entry(s, cfg, action, id, e, now) matches Some(after) ==> after.len() == s.len()
            && forall|j: int| 0 <= j < s.len() ==> (#[trigger] after[j]).id == s[j].id,
{
    let i = index_of(s, id);
    let name = e.relationship@;
    let l = ids_under(s[i], name);
    let n = revise(l, action, e.target_ids@);
    lemma_index_of(s, id);
    if i >= 0 && n.len() != l.len() {
        let s1 = s.update(i, relink(s[i], name, n, now));
        if let Some(Some(inv)) = inverse_of(cfg.relationships@, name) {
            lemma_mirror_ids(s1, e.target_ids@, inv, id, action, now);
        }
    }
}

/// Adds and removes links of issue `id` among the records `s`, in the order:
/// all additions, then all removals. Every check of the request comes first
/// and leaves the records as they are when it fails. Each changed record gets
/// `now` as its update time.
pub fn link(
    s: &mut Vec<Meta>,
    config: &Config,
    id: u32,
    add: Option<Vec<RelationshipLink>>,
    remove: Option<Vec<RelationshipLink>>,
    now: &str,
) -> (r: Result<(), LinkError>)
    requires
        config.wf(),
    ensures
        link_outcome(views(old(s)@), *config, id, entries_of(add), entries_of(remove), now@) == (
        views(final(s)@),
        outcome(r),
        ),
{
    if find_record(s, id).is_none() {
        return Err(LinkError::NotFound(id));
    }
    let adds = match add {
        Some(v) => v,
        None => Vec::new(),
    };
    let removes = match remove {
        Some(v) => v,
        None => Vec::new(),
    };
    assert(adds@ == entries_of(add));
    assert(removes@ == entries_of(remove));
    validate_relationships(s, config, id, &adds)?;
    validate_relationships(s, config, id, &removes)?;
    run_all(s, config, Action::Add, id, &adds, now)?;
    run_all(s, config, Action::Remove, id, &removes, now)?;
    Ok(())
}

proof fn lemma_add_one(l: Seq<u32>, t: u32)
    ensures
        add_ids(l, seq![t]) == if l.contains(t) {
            l
        } else {
            l.push(t)
        },
{
    assert(seq![t].drop_last() =~= Seq::<u32>::empty());
    assert(seq![t].last() == t);
    assert(add_ids(l, Seq::<u32>::empty()) == l);
}

/// Removing drops exactly the listed ids, and shortens the list exactly when
/// one of them was there.
proof fn lemma_remove_ids(l: Seq<u32>, ts: Seq<u32>)
    ensures
        forall|x: u32| #[trigger] remove_ids(l, ts).contains(x) <==> l.contains(x) && !ts.contains(x),
        remove_ids(l, ts).len() <= l.len(),
        remove_ids(l, ts).len() == l.len() <==> forall|x: u32| l.contains(x) ==> !ts.contains(x),
    decreases l.len(),
{
    if l.len() > 0 {
        let d = l.drop_last();
        lemma_remove_ids(d, ts);
        assert(d.push(l.last()) =~= l);
        assert forall|x: u32| l.contains(x) <==> (d.contains(x) || x == l.last()) by {
            if l.contains(x) {
                let j = choose|j: int| 0 <= j < l.len() && l[j] == x;
                if j < d.len() {
                    assert(d[j] == x);
                }
            }
            if d.contains(x) {
                let j = choose|j: int| 0 <= j < d.len() && d[j] == x;
                assert(l[j] == x);
            }
            if x == l.last() {
                assert(l[l.len() - 1] == x);
            }
        }
        let r = remove_ids(d, ts);
        assert(remove_ids(l, ts) == if ts.contains(l.last()) {
            r
        } else {
            r.push(l.last())
        });
        assert forall|x: u32| r.push(l.last()).contains(x) <==> (r.contains(x) || x == l.last()) by {
            if r.push(l.last()).contains(x) {
                let j = choose|j: int| 0 <= j < r.len() + 1 && r.push(l.last())[j] == x;
                if j < r.len() {
                    assert(r[j] == x);
                }
            }
            if r.contains(x) {
                let j = choose|j: int| 0 <= j < r.len() && r[j] == x;
                assert(r.push(l.last())[j] == x);
            }
            if x == l.last() {
                assert(r.push(l.last())[r.len() as int] == x);
            }
        }
        assert forall|x: u32| #[trigger] remove_ids(l, ts).contains(x) <==> l.contains(x) && !ts.contains(
            x,
        ) by {
            assert(r.contains(x) <==> d.contains(x) && !ts.contains(x));
            assert(l.contains(x) <==> (d.contains(x) || x == l.last()));
            assert(r.push(l.last()).contains(x) <==> (r.contains(x) || x == l.last()));
        }
        if !ts.contains(l.last()) {
            if r.len() == d.len() {
                assert forall|x: u32| l.contains(x) implies !ts.contains(x) by {}
            }
        } else {
            assert(l.contains(l.last())) by {
                assert(l[l.len() - 1] == l.last());
            }
        }
    } else {
        assert forall|x: u32| !l.contains(x) by {}
    }
}

proof fn lemma_ids_under_relink(m: MetaView, k: Seq<char>, v: Seq<u32>, now: Seq<char>, k2: Seq<char>)
    ensures
        ids_under(relink(m, k, v, now), k2) == if k2 == k {
            v
        } else {
            ids_under(m, k2)
        },
        relink(m, k, v, now).id == m.id,
{
    crate::relmap::lemma_lookup_store(m.relationships, k, v, k2);
}

/// The mirrored change of `a` on the single target `b`.
proof fn lemma_mirror_one(s: Seq<MetaView>, b: u32, inv: Seq<char>, a: u32, action: Action, now: Seq<char>)
    requires
        index_of(s, b) >= 0,
    ensures
        ({
            let j = index_of(s, b);
            let l = ids_under(s[j], inv);
            let n = revise(l, action, seq![a]);
            mirror(s, seq![b], inv, a, action, now) == if n.len() == l.len() {
                s
            } else {
                s.update(j, relink(s[j], inv, n, now))
            }
        }),
{
    assert(seq![b].drop_last() =~= Seq::<u32>::empty());
    assert(seq![b].last() == b);
    assert(mirror(s, Seq::<u32>::empty(), inv, a, action, now) == s);
}

proof fn lemma_single_target_passes(s: Seq<MetaView>, cfg: Config, a: u32, e: RelationshipLink, b: u32)
    requires
        index_of(s, b) >= 0,
        a != b,
        e.target_ids@ == seq![b],
        inverse_of(cfg.relationships@, e.relationship@) is Some,
    ensures
        entries_fault(s, cfg, a, seq![e]) is None,
{
    let es = seq![e];
    assert(es.drop_first() =~= Seq::<RelationshipLink>::empty());
    assert(seq![b].drop_first() =~= Seq::<u32>::empty());
    assert(seq![b][0] == b);
    assert(es[0] == e);
    assert(targets_fault(s, a, Seq::<u32>::empty()) is None);
    assert(targets_fault(s, a, seq![b]) is None);
    assert(targets_fault(s, a, e.target_ids@) is None);
    assert(entries_fault(s, cfg, a, es.drop_first()) is None);
}

/// A request of one entry whose checks pass: its outcome is that of the entry.
proof fn lemma_single_entry(
    s: Seq<MetaView>,
    cfg: Config,
    a: u32,
    e: RelationshipLink,
    action: Action,
    now: Seq<char>,
)
    requires
        index_of(s, a) >= 0,
        entries_fault(s, cfg, a, seq![e]) is None,
    ensures
        link_outcome(s, cfg, a, if action == Action::Add {
            seq![e]
        } else {
            Seq::empty()
        }, if action == Action::Add {
            Seq::empty()
        } else {
            seq![e]
        }, now) == match apply_entry(s, cfg, action, a, e, now) {
            Some(s1) => (s1, None::<LinkFault>),
            None => (s, Some(LinkFault::NoOp)),
        },
{
    let es = seq![e];
    assert(es.drop_first() =~= Seq::<RelationshipLink>::empty());
    assert(es[0] == e);
    let empty = Seq::<RelationshipLink>::empty();
    assert(entries_fault(s, cfg, a, empty) is None);
    match apply_entry(s, cfg, action, a, e, now) {
        Some(s1) => {
            assert(run_entries(s1, cfg, action, a, es.drop_first(), now) == Ok::<
                Seq<MetaView>,
                Seq<MetaView>,
            >(s1));
            assert(run_entries(s, cfg, action, a, es, now) == Ok::<Seq<MetaView>, Seq<MetaView>>(s1));
        },
        None => {
            assert(run_entries(s, cfg, action, a, es, now) == Err::<Seq<MetaView>, Seq<MetaView>>(s));
        },
    }
}

/// Linking `a` to `b` lists `b` on `a`. Where the relationship type has an
/// inverse, `a` is listed on `b` under the inverse; `b` lists `a` under the
/// same type afterwards exactly when the type is its own inverse or `b`
/// listed `a` there before.
pub proof fn lemma_link_add_symmetry(
    s: Seq<MetaView>,
    cfg: Config,
    a: u32,
    b: u32,
    e: RelationshipLink,
    now: Seq<char>,
)
    requires
        index_of(s, a) >= 0,
        index_of(s, b) >= 0,
        a != b,
        e.target_ids@ == seq![b],
        inverse_of(cfg.relationships@, e.relationship@) is Some,
        !ids_under(s[index_of(s, a)], e.relationship@).contains(b),
    ensures
        ({
            let name = e.relationship@;
            let inverse = inverse_of(cfg.relationships@, name)->0;
            let (s1, fault) = link_outcome(s, cfg, a, seq![e], Seq::empty(), now);
            &&& fault is None
            &&& index_of(s1, a) == index_of(s, a)
            &&& index_of(s1, b) == index_of(s, b)
            &&& ids_under(s1[index_of(s1, a)], name).contains(b)
            &&& inverse matches Some(inv) ==> ids_under(s1[index_of(s1, b)], inv).contains(a)
            &&& ids_under(s1[index_of(s1, b)], name).contains(a) == (inverse == Some(name)
                || ids_under(s[index_of(s, b)], name).contains(a))
        }),
{
    let name = e.relationship@;
    let ia = index_of(s, a);
    let ib = index_of(s, b);
    lemma_index_of(s, a);
    lemma_index_of(s, b);
    lemma_single_target_passes(s, cfg, a, e, b);
    lemma_single_entry(s, cfg, a, e, Action::Add, now);
    let l = ids_under(s[ia], name);
    lemma_add_one(l, b);
    let n = l.push(b);
    assert(n.contains(b)) by {
        assert(n[l.len() as int] == b);
    }
    let s1 = s.update(ia, relink(s[ia], name, n, now));
    lemma_ids_under_relink(s[ia], name, n, now, name);
    lemma_index_of_same_ids(s, s1, a);
    lemma_index_of_same_ids(s, s1, b);
    assert(ia != ib);
    assert(s1[ib] == s[ib]);
    lemma_mirror_keeps_ids(s, cfg, Action::Add, a, e, now);
    let after = apply_entry(s, cfg, Action::Add, a, e, now)->0;
    lemma_index_of_same_ids(s, after, a);
    lemma_index_of_same_ids(s, after, b);
    match inverse_of(cfg.relationships@, name) {
        Some(Some(inv)) => {
            lemma_mirror_one(s1, b, inv, a, Action::Add, now);
            let l2 = ids_under(s1[ib], inv);
            lemma_add_one(l2, a);
            let n2 = add_ids(l2, seq![a]);
            if n2.len() != l2.len() {
                assert(n2 == l2.push(a));
                assert(n2[l2.len() as int] == a);
                lemma_ids_under_relink(s1[ib], inv, n2, now, inv);
                lemma_ids_under_relink(s1[ib], inv, n2, now, name);
            }
        },
        _ => {},
    }
}

/// Removing the link of `a` to `b` drops `b` from `a`, and where the
/// relationship type has an inverse, drops `a` from `b` under the inverse.
pub proof fn lemma_link_remove_clears(
    s: Seq<MetaView>,
    cfg: Config,
    a: u32,
    b: u32,
    e: RelationshipLink,
    now: Seq<char>,
)
    requires
        index_of(s, a) >= 0,
        index_of(s, b) >= 0,
        a != b,
        e.target_ids@ == seq![b],
        inverse_of(cfg.relationships@, e.relationship@) is Some,
        ids_under(s[index_of(s, a)], e.relationship@).contains(b),
    ensures
        ({
            let name = e.relationship@;
            let (s2, fault) = link_outcome(s, cfg, a, Seq::empty(), seq![e], now);
            &&& fault is None
            &&& !ids_under(s2[index_of(s2, a)], name).contains(b)
            &&& ids_under(s2[index_of(s2, a)], name) == remove_ids(
                ids_under(s[index_of(s, a)], name),
                seq![b],
            )
            &&& inverse_of(cfg.relationships@, name) matches Some(Some(inv)) ==> !ids_under(
                s2[index_of(s2, b)],
                inv,
            ).contains(a) && ids_under(s2[index_of(s2, b)], inv) == remove_ids(
                ids_under(s[index_of(s, b)], inv),
                seq![a],
            )
        }),
{
    let name = e.relationship@;
    let ia = index_of(s, a);
    let ib = index_of(s, b);
    lemma_index_of(s, a);
    lemma_index_of(s, b);
    lemma_single_target_passes(s, cfg, a, e, b);
    lemma_single_entry(s, cfg, a, e, Action::Remove, now);
    let l = ids_under(s[ia], name);
    lemma_remove_ids(l, seq![b]);
    assert(seq![b].contains(b)) by {
        assert(seq![b][0] == b);
    }
    let n = remove_ids(l, seq![b]);
    assert(n.len() != l.len());
    let s1 = s.update(ia, relink(s[ia], name, n, now));
    lemma_ids_under_relink(s[ia], name, n, now, name);
    lemma_index_of_same_ids(s, s1, a);
    lemma_index_of_same_ids(s, s1, b);
    assert(ia != ib);
    assert(s1[ib] == s[ib]);
    lemma_mirror_keeps_ids(s, cfg, Action::Remove, a, e, now);
    let after = apply_entry(s, cfg, Action::Remove, a, e, now)->0;
    lemma_index_of_same_ids(s, after, a);
    lemma_index_of_same_ids(s, after, b);
    match inverse_of(cfg.relationships@, name) {
        Some(Some(inv)) => {
            lemma_mirror_one(s1, b, inv, a, Action::Remove, now);
            let l2 = ids_under(s1[ib], inv);
            lemma_remove_ids(l2, seq![a]);
            assert(seq![a].contains(a)) by {
                assert(seq![a][0] == a);
            }
            let n2 = remove_ids(l2, seq![a]);
            if n2.len() != l2.len() {
                lemma_ids_under_relink(s1[ib], inv, n2, now, inv);
            } else {
                assert(!l2.contains(a));
                assert forall|x: u32| l2.contains(x) implies !seq![a].contains(x) by {
                    if seq![a].contains(x) {
                        let j = choose|j: int| 0 <= j < 1 && seq![a][j] == x;
                        assert(x == a);
                    }
                }
                lemma_remove_ids_none(l2, seq![a]);
            }
        },
        _ => {},
    }
}

proof fn lemma_remove_ids_none(l: Seq<u32>, ts: Seq<u32>)
    requires
        forall|x: u32| l.contains(x) ==> !ts.contains(x),
    ensures
        remove_ids(l, ts) == l,
    decreases l.len(),
{
    if l.len() > 0 {
        let d = l.drop_last();
        assert forall|x: u32| d.contains(x) implies !ts.contains(x) by {
            let j = choose|j: int| 0 <= j < d.len() && d[j] == x;
            assert(l[j] == x);
        }
        lemma_remove_ids_none(d, ts);
        assert(l.contains(l.last())) by {
            assert(l[l.len() - 1] == l.last());
        }
        assert(d.push(l.last()) =~= l);
    }
}

proof fn lemma_self_target_fault(s: Seq<MetaView>, a: u32, ts: Seq<u32>)
    requires
        ts.contains(a),
    ensures
        targets_fault(s, a, ts) is Some,
    decreases ts.len(),
{
    if index_of(s, ts[0]) >= 0 && ts[0] != a {
        let j = choose|j: int| 0 <= j < ts.len() && ts[j] == a;
        assert(ts.drop_first()[j - 1] == a);
        lemma_self_target_fault(s, a, ts.drop_first());
    }
}

proof fn lemma_self_entry_fault(s: Seq<MetaView>, cfg: Config, a: u32, es: Seq<RelationshipLink>, k: int)
    requires
        0 <= k < es.len(),
        es[k].target_ids@.contains(a),
    ensures
        entries_fault(s, cfg, a, es) is Some,
    decreases es.len(),
{
    if k == 0 {
        if inverse_of(cfg.relationships@, es[0].relationship@) is Some {
            lemma_self_target_fault(s, a, es[0].target_ids@);
        }
    } else {
        assert(es.drop_first()[k - 1] == es[k]);
        lemma_self_entry_fault(s, cfg, a, es.drop_first(), k - 1);
    }
}

/// A request that lists the issue itself among its targets fails, and leaves
/// every record as it was.
pub proof fn lemma_self_link_rejected(
    s: Seq<MetaView>,
    cfg: Config,
    a: u32,
    adds: Seq<RelationshipLink>,
    removes: Seq<RelationshipLink>,
    now: Seq<char>,
)
    requires
        exists|k: int| 0 <= k < adds.len() && (#[trigger] adds[k]).target_ids@.contains(a)
            || exists|k: int| 0 <= k < removes.len() && (#[trigger] removes[k]).target_ids@.contains(a),
    ensures
        link_outcome(s, cfg, a, adds, removes, now).0 == s,
        link_outcome(s, cfg, a, adds, removes, now).1 is Some,
{
    if exists|k: int| 0 <= k < adds.len() && (#[trigger] adds[k]).target_ids@.contains(a) {
        let k = choose|k: int| 0 <= k < adds.len() && (#[trigger] adds[k]).target_ids@.contains(a);
        lemma_self_entry_fault(s, cfg, a, adds, k);
    } else {
        let k = choose|k: int| 0 <= k < removes.len() && (#[trigger] removes[k]).target_ids@.contains(a);
        lemma_self_entry_fault(s, cfg, a, removes, k);
    }
}

/// Linking an existing issue to itself alone, under a configured type, fails
/// with `SelfLink` and leaves every record as it was.
pub proof fn lemma_self_link_fault(s: Seq<MetaView>, cfg: Config, a: u32, e: RelationshipLink, now: Seq<char>)
    requires
        index_of(s, a) >= 0,
        e.target_ids@ == seq![a],
        inverse_of(cfg.relationships@, e.relationship@) is Some,
    ensures
        link_outcome(s, cfg, a, seq![e], Seq::empty(), now) == (s, Some(LinkFault::SelfLink)),
{
    let es = seq![e];
    assert(es[0] == e);
    assert(seq![a][0] == a);
}

/// Adding keeps every id once: the result holds the old ids and the targets,
/// repeats none when the old list repeated none, and is longer exactly when
/// some target was missing.
pub proof fn lemma_add_ids(l: Seq<u32>, ts: Seq<u32>)
    ensures
        forall|x: u32| #[trigger] add_ids(l, ts).contains(x) <==> l.contains(x) || ts.contains(x),
        l.no_duplicates() ==> add_ids(l, ts).no_duplicates(),
        add_ids(l, ts).len() == l.len() <==> forall|x: u32| ts.contains(x) ==> l.contains(x),
        add_ids(l, ts).len() >= l.len(),
    decreases ts.len(),
{
    if ts.len() > 0 {
        let d = ts.drop_last();
        let t = ts.last();
        lemma_add_ids(l, d);
        let a = add_ids(l, d);
        assert(d.push(t) =~= ts);
        assert forall|x: u32| ts.contains(x) <==> (d.contains(x) || x == t) by {
            if ts.contains(x) {
                let j = choose|j: int| 0 <= j < ts.len() && ts[j] == x;
                if j < d.len() {
                    assert(d[j] == x);
                }
            }
            if d.contains(x) {
                let j = choose|j: int| 0 <= j < d.len() && d[j] == x;
                assert(ts[j] == x);
            }
            if x == t {
                assert(ts[ts.len() - 1] == x);
            }
        }
        assert forall|x: u32| a.push(t).contains(x) <==> (a.contains(x) || x == t) by {
            if a.push(t).contains(x) {
                let j = choose|j: int| 0 <= j < a.len() + 1 && a.push(t)[j] == x;
                if j < a.len() {
                    assert(a[j] == x);
                }
            }
            if a.contains(x) {
                let j = choose|j: int| 0 <= j < a.len() && a[j] == x;
                assert(a.push(t)[j] == x);
            }
            if x == t {
                assert(a.push(t)[a.len() as int] == x);
            }
        }
        assert forall|x: u32| #[trigger] add_ids(l, ts).contains(x) <==> l.contains(x) || ts.contains(
            x,
        ) by {
            assert(a.contains(x) <==> l.contains(x) || d.contains(x));
        }
        if l.no_duplicates() && !a.contains(t) {
            assert forall|i: int, j: int|
                0 <= i < a.push(t).len() && 0 <= j < a.push(t).len() && i != j implies a.push(t)[i]
                != a.push(t)[j] by {
                if i < a.len() && j < a.len() {
                } else if i < a.len() {
                    assert(a.contains(a[i]));
                } else if j < a.len() {
                    assert(a.contains(a[j]));
                }
            }
        }
        if a.contains(t) {
            if a.len() == l.len() {
                assert forall|x: u32| ts.contains(x) implies l.contains(x) by {
                    assert(a.contains(x));
                }
            }
        } else {
            assert(ts.contains(t));
            assert(!l.contains(t));
        }
    }
}

/// Within a request whose checks pass, an added entry with at least one new
/// target succeeds, and the source then lists every target once, its earlier
/// links kept in place.
pub proof fn lemma_link_add_idempotent(
    s: Seq<MetaView>,
    cfg: Config,
    a: u32,
    e: RelationshipLink,
    now: Seq<char>,
)
    requires
        index_of(s, a) >= 0,
        entries_fault(s, cfg, a, seq![e]) is None,
        exists|t: u32| #[trigger] e.target_ids@.contains(t) && !ids_under(
            s[index_of(s, a)],
            e.relationship@,
        ).contains(t),
    ensures
        ({
            let l = ids_under(s[index_of(s, a)], e.relationship@);
            let (s1, fault) = link_outcome(s, cfg, a, seq![e], Seq::empty(), now);
            &&& fault is None
            &&& index_of(s1, a) == index_of(s, a)
            &&& ids_under(s1[index_of(s1, a)], e.relationship@) == add_ids(l, e.target_ids@)
            &&& forall|x: u32| #[trigger] add_ids(l, e.target_ids@).contains(x) <==> l.contains(x)
                || e.target_ids@.contains(x)
            &&& l.no_duplicates() ==> add_ids(l, e.target_ids@).no_duplicates()
        }),
{
    let name = e.relationship@;
    let ia = index_of(s, a);
    lemma_index_of(s, a);
    lemma_single_entry(s, cfg, a, e, Action::Add, now);
    let l = ids_under(s[ia], name);
    lemma_add_ids(l, e.target_ids@);
    let t = choose|t: u32| #[trigger] e.target_ids@.contains(t) && !l.contains(t);
    let n = add_ids(l, e.target_ids@);
    assert(n.len() != l.len());
    let s1 = s.update(ia, relink(s[ia], name, n, now));
    lemma_ids_under_relink(s[ia], name, n, now, name);
    lemma_index_of_same_ids(s, s1, a);
    lemma_mirror_keeps_ids(s, cfg, Action::Add, a, e, now);
    let after = apply_entry(s, cfg, Action::Add, a, e, now)->0;
    lemma_index_of_same_ids(s, after, a);
    lemma_targets_not_self(s, a, e.target_ids@);
    if let Some(Some(inv)) = inverse_of(cfg.relationships@, name) {
        lemma_mirror_spares(s1, e.target_ids@, inv, a, Action::Add, now, ia);
    }
}

proof fn lemma_targets_not_self(s: Seq<MetaView>, a: u32, ts: Seq<u32>)
    requires
        targets_fault(s, a, ts) is None,
    ensures
        !ts.contains(a),
{
    if ts.contains(a) {
        lemma_self_target_fault(s, a, ts);
    }
}

/// The mirrored change leaves alone every record whose id is not a target.
proof fn lemma_mirror_spares(
    s: Seq<MetaView>,
    ts: Seq<u32>,
    inv: Seq<char>,
    a: u32,
    action: Action,
    now: Seq<char>,
    i: int,
)
    requires
        0 <= i < s.len(),
        !ts.contains(s[i].id),
    ensures
        mirror(s, ts, inv, a, action, now)[i] == s[i],
    decreases ts.len(),
{
    if ts.len() > 0 {
        let d = ts.drop_last();
        assert(!d.contains(s[i].id)) by {
            if d.contains(s[i].id) {
                let j = choose|j: int| 0 <= j < d.len() && d[j] == s[i].id;
                assert(ts[j] == s[i].id);
            }
        }
        lemma_mirror_spares(s, d, inv, a, action, now, i);
        lemma_mirror_ids(s, d, inv, a, action, now);
        let s1 = mirror(s, d, inv, a, action, now);
        lemma_index_of(s1, ts.last());
        assert(ts[ts.len() - 1] == ts.last());
    }
}

/// In a well-formed configuration, the inverse found for a relationship type
/// is the one configured with it.
pub proof fn lemma_inverse_of_configured(cfg: Config, k: int)
    requires
        cfg.wf(),
        0 <= k < cfg.relationships@.len(),
    ensures
        inverse_of(cfg.relationships@, cfg.relationships@[k].0@) == Some(
            opt_text(cfg.relationships@[k].1.link),
        ),
{
    lemma_inverse_of_at(cfg.relationships@, k);
}

proof fn lemma_inverse_of_at(rs: Seq<(String, crate::model::Relationship)>, k: int)
    requires
        0 <= k < rs.len(),
        forall|i: int, j: int| 0 <= i < j < rs.len() ==> (#[trigger] rs[i]).0@ != (#[trigger] rs[j]).0@,
    ensures
        inverse_of(rs, rs[k].0@) == Some(opt_text(rs[k].1.link)),
    decreases k,
{
    if k > 0 {
        let d = rs.drop_first();
        assert forall|i: int, j: int| 0 <= i < j < d.len() implies (#[trigger] d[i]).0@ != (
        #[trigger] d[j]).0@ by {
            assert(d[i] == rs[i + 1] && d[j] == rs[j + 1]);
        }
        assert(d[k - 1] == rs[k]);
        assert(rs[0].0@ != rs[k].0@);
        lemma_inverse_of_at(d, k - 1);
    }
}

/// A request whose checks pass, with at least one entry, none of which would
/// change the source (each added target already listed, no removed target
/// listed), fails with `NoOp` and leaves every record as it was.
pub proof fn lemma_link_noop_all(
    s: Seq<MetaView>,
    cfg: Config,
    a: u32,
    adds: Seq<RelationshipLink>,
    removes: Seq<RelationshipLink>,
    now: Seq<char>,
)
    requires
        index_of(s, a) >= 0,
        entries_fault(s, cfg, a, adds) is None,
        entries_fault(s, cfg, a, removes) is None,
        adds.len() + removes.len() > 0,
        forall|k: int, t: u32|
            0 <= k < adds.len() && #[trigger] adds[k].target_ids@.contains(t) ==> ids_under(
                s[index_of(s, a)],
                adds[k].relationship@,
            ).contains(t),
        forall|k: int, t: u32|
            0 <= k < removes.len() && #[trigger] removes[k].target_ids@.contains(t) ==> !ids_under(
                s[index_of(s, a)],
                removes[k].relationship@,
            ).contains(t),
    ensures
        link_outcome(s, cfg, a, adds, removes, now) == (s, Some(LinkFault::NoOp)),
{
    let ia = index_of(s, a);
    if adds.len() > 0 {
        let e = adds[0];
        let l = ids_under(s[ia], e.relationship@);
        lemma_add_ids(l, e.target_ids@);
        assert forall|t: u32| e.target_ids@.contains(t) implies l.contains(t) by {
            assert(adds[0].target_ids@.contains(t));
        }
        assert(apply_entry(s, cfg, Action::Add, a, e, now) is None);
    } else {
        assert(run_entries(s, cfg, Action::Add, a, adds, now) == Ok::<Seq<MetaView>, Seq<MetaView>>(s));
        let e = removes[0];
        let l = ids_under(s[ia], e.relationship@);
        lemma_remove_ids(l, e.target_ids@);
        assert forall|x: u32| l.contains(x) implies !e.target_ids@.contains(x) by {
            if e.target_ids@.contains(x) {
                assert(removes[0].target_ids@.contains(x));
            }
        }
        assert(apply_entry(s, cfg, Action::Remove, a, e, now) is None);
    }
}

/// Every relationship list of the record repeats no id.
pub open spec fn lists_distinct(m: MetaView) -> bool {
    forall|i: int| 0 <= i < m.relationships.len() ==> (#[trigger] m.relationships[i]).1.no_duplicates()
}

/// Every relationship list of every record repeats no id.
pub open spec fn all_distinct(s: Seq<MetaView>) -> bool {
    forall|j: int| 0 <= j < s.len() ==> lists_distinct(#[trigger] s[j])
}

proof fn lemma_remove_ids_distinct(l: Seq<u32>, ts: Seq<u32>)
    requires
        l.no_duplicates(),
    ensures
        remove_ids(l, ts).no_duplicates(),
    decreases l.len(),
{
    if l.len() > 0 {
        let d = l.drop_last();
        assert(d.no_duplicates()) by {
            assert forall|i: int, j: int| 0 <= i < d.len() && 0 <= j < d.len() && i != j implies d[i]
                != d[j] by {
                assert(d[i] == l[i] && d[j] == l[j]);
            }
        }
        lemma_remove_ids_distinct(d, ts);
        lemma_remove_ids(d, ts);
        let r = remove_ids(d, ts);
        if !ts.contains(l.last()) {
            assert(!d.contains(l.last())) by {
                if d.contains(l.last()) {
                    let j = choose|j: int| 0 <= j < d.len() && d[j] == l.last();
                    assert(l[j] == l[l.len() - 1]);
                }
            }
            assert(!r.contains(l.last()));
            assert forall|i: int, j: int|
                0 <= i < r.push(l.last()).len() && 0 <= j < r.push(l.last()).len() && i != j implies r.push(
                l.last(),
            )[i] != r.push(l.last())[j] by {
                if i < r.len() && j == r.len() {
                    assert(r.contains(r[i]));
                } else if j < r.len() && i == r.len() {
                    assert(r.contains(r[j]));
                }
            }
        }
    }
}

proof fn lemma_revise_distinct(l: Seq<u32>, action: Action, ts: Seq<u32>)
    requires
        l.no_duplicates(),
    ensures
        revise(l, action, ts).no_duplicates(),
{
    lemma_add_ids(l, ts);
    lemma_remove_ids_distinct(l, ts);
}

proof fn lemma_ids_under_distinct(m: MetaView, k: Seq<char>)
    requires
        lists_distinct(m),
    ensures
        ids_under(m, k).no_duplicates(),
{
    crate::relmap::lemma_find_key(m.relationships, k);
    if find_key(m.relationships, k) < 0 {
        assert(Seq::<u32>::empty().no_duplicates());
    }
}

proof fn lemma_relink_distinct(m: MetaView, k: Seq<char>, v: Seq<u32>, now: Seq<char>)
    requires
        lists_distinct(m),
        v.no_duplicates(),
    ensures
        lists_distinct(relink(m, k, v, now)),
{
    let e = m.relationships;
    crate::relmap::lemma_find_key(e, k);
    let t = store(e, k, v);
    assert forall|i: int| 0 <= i < t.len() implies (#[trigger] t[i]).1.no_duplicates() by {
        if find_key(e, k) >= 0 {
            if i != find_key(e, k) {
                assert(t[i] == e[i]);
            }
        } else if i < e.len() {
            assert(t[i] == e[i]);
        }
    }
}

proof fn lemma_mirror_distinct(s: Seq<MetaView>, ts: Seq<u32>, inv: Seq<char>, id: u32, action: Action, now: Seq<char>)
    requires
        all_distinct(s),
    ensures
        all_distinct(mirror(s, ts, inv, id, action, now)),
    decreases ts.len(),
{
    if ts.len() > 0 {
        lemma_mirror_distinct(s, ts.drop_last(), inv, id, action, now);
        let s1 = mirror(s, ts.drop_last(), inv, id, action, now);
        lemma_index_of(s1, ts.last());
        let j = index_of(s1, ts.last());
        if j >= 0 {
            let l = ids_under(s1[j], inv);
            lemma_ids_under_distinct(s1[j], inv);
            lemma_revise_distinct(l, action, seq![id]);
            let n = revise(l, action, seq![id]);
            lemma_relink_distinct(s1[j], inv, n, now);
            let s2 = s1.update(j, relink(s1[j], inv, n, now));
            assert forall|q: int| 0 <= q < s2.len() implies lists_distinct(#[trigger] s2[q]) by {
                if q != j {
                    assert(s2[q] == s1[q]);
                }
            }
        }
    }
}

proof fn lemma_apply_entry_distinct(
    s: Seq<MetaView>,
    cfg: Config,
    action: Action,
    id: u32,
    e: RelationshipLink,
    now: Seq<char>,
)
    requires
        all_distinct(s),
    ensures
        apply_entry(s, cfg, action, id, e, now) matches Some(after) ==> all_distinct(after),
{
    let i = index_of(s, id);
    lemma_index_of(s, id);
    let name = e.relationship@;
    if i >= 0 {
        let l = ids_under(s[i], name);
        lemma_ids_under_distinct(s[i], name);
        lemma_revise_distinct(l, action, e.target_ids@);
        let n = revise(l, action, e.target_ids@);
        lemma_relink_distinct(s[i], name, n, now);
        let s1 = s.update(i, relink(s[i], name, n, now));
        assert forall|q: int| 0 <= q < s1.len() implies lists_distinct(#[trigger] s1[q]) by {
            if q != i {
                assert(s1[q] == s[q]);
            }
        }
        if let Some(Some(inv)) = inverse_of(cfg.relationships@, name) {
            lemma_mirror_distinct(s1, e.target_ids@, inv, id, action, now);
        }
    }
}

proof fn lemma_run_entries_distinct(
    s: Seq<MetaView>,
    cfg: Config,
    action: Action,
    id: u32,
    es: Seq<RelationshipLink>,
    now: Seq<char>,
)
    requires
        all_distinct(s),
    ensures
        match run_entries(s, cfg, action, id, es, now) {
            Ok(after) => all_distinct(after),
            Err(after) => all_distinct(after),
        },
    decreases es.len(),
{
    if es.len() > 0 {
        lemma_apply_entry_distinct(s, cfg, action, id, es[0], now);
        if let Some(s1) = apply_entry(s, cfg, action, id, es[0], now) {
            lemma_run_entries_distinct(s1, cfg, action, id, es.drop_first(), now);
        }
    }
}

/// A link request never makes a relationship list repeat an id: when no list
/// of any record repeats one before, none does after, whether the request
/// succeeds or stops partway.
pub proof fn lemma_link_keeps_lists_distinct(
    s: Seq<MetaView>,
    cfg: Config,
    a: u32,
    adds: Seq<RelationshipLink>,
    removes: Seq<RelationshipLink>,
    now: Seq<char>,
)
    requires
        all_distinct(s),
    ensures
        all_distinct(link_outcome(s, cfg, a, adds, removes, now).0),
{
    lemma_run_entries_distinct(s, cfg, Action::Add, a, adds, now);
    if let Ok(s1) = run_entries(s, cfg, Action::Add, a, adds, now) {
        lemma_run_entries_distinct(s1, cfg, Action::Remove, a, removes, now);
    }
}

} // verus!
