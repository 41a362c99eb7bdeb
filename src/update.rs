//! Changes to the fields of one issue: each requested field is checked and
//! applied in a fixed order, and the names of the fields that changed are
//! reported.
use crate::fields::{is_valid_iso_date, iso_date};
use crate::link::opt_text;
use crate::relmap::rel_new;
use crate::model::{
    is_listed, is_valid_state, is_valid_type, is_valid_user, listed, me_resolves, same_text, texts,
    user_handle_me, valid_user, Config, Meta, MetaView, Priority, Settings, Users,
};
use vstd::prelude::*;

verus! {

/// The fields to change; `None` leaves a field as it is.
pub struct FieldChanges {
    pub title: Option<String>,
    pub state: Option<String>,
    pub type_: Option<String>,
    pub reporter: Option<String>,
    pub assignee: Option<String>,
    pub priority: Option<Priority>,
    pub due_date: Option<String>,
    pub labels: Option<Vec<String>>,
    pub labels_add: Option<Vec<String>>,
    pub labels_remove: Option<Vec<String>>,
}

/// Why a change was refused.
#[derive(Clone, Debug)]
pub enum SetError {
    InvalidState(String),
    InvalidType(String),
    InvalidReporter(String),
    InvalidAssignee(String),
    /// `me` was given but the settings name no valid user.
    UnresolvedMe,
    InvalidDueDate,
}

pub ghost enum SetFault {
    InvalidState(Seq<char>),
    InvalidType(Seq<char>),
    InvalidReporter(Seq<char>),
    InvalidAssignee(Seq<char>),
    UnresolvedMe,
    InvalidDueDate,
}

pub open spec fn set_fault(e: SetError) -> SetFault {
    match e {
        SetError::InvalidState(v) => SetFault::InvalidState(v@),
        SetError::InvalidType(v) => SetFault::InvalidType(v@),
        SetError::InvalidReporter(v) => SetFault::InvalidReporter(v@),
        SetError::InvalidAssignee(v) => SetFault::InvalidAssignee(v@),
        SetError::UnresolvedMe => SetFault::UnresolvedMe,
        SetError::InvalidDueDate => SetFault::InvalidDueDate,
    }
}

impl SetError {
    /// A message that describes the error.
    pub fn message(&self) -> String {
        match self {
            SetError::InvalidState(v) => String::from_str("Invalid state \"").concat(v.as_str()).concat(
                "\" | Configurable in config.yaml:states",
            ),
            SetError::InvalidType(v) => String::from_str("Invalid type \"").concat(v.as_str()).concat(
                "\" | Configurable in config.yaml:types",
            ),
            SetError::InvalidReporter(v) => String::from_str("Invalid reporter \"").concat(
                v.as_str(),
            ).concat("\" | Configurable in users.yaml:users"),
            SetError::InvalidAssignee(v) => String::from_str("Invalid assignee \"").concat(
                v.as_str(),
            ).concat("\" | Configurable in users.yaml:users"),
            SetError::UnresolvedMe => String::from_str(
                "Invalid user: settings.yaml::user must be part of users.yaml:users or ''",
            ),
            SetError::InvalidDueDate => String::from_str(
                "Invalid due_date format: Use 'YYYY-MM-DD' or ''",
            ),
        }
    }
}

/// A record on its way through the changes, with the names of the fields changed so far.
pub type Progress = (MetaView, Seq<Seq<char>>);

/// The labels without empty ones.
pub open spec fn non_empty(ls: Seq<Seq<char>>) -> Seq<Seq<char>>
    decreases ls.len(),
{
    if ls.len() == 0 {
        ls
    } else {
        let r = non_empty(ls.drop_last());
        if ls.last().len() > 0 {
            r.push(ls.last())
        } else {
            r
        }
    }
}

/// The labels with each of `xs` appended that they do not hold yet.
pub open spec fn add_labels(ls: Seq<Seq<char>>, xs: Seq<Seq<char>>) -> Seq<Seq<char>>
    decreases xs.len(),
{
    if xs.len() == 0 {
        ls
    } else {
        let a = add_labels(ls, xs.drop_last());
        if a.contains(xs.last()) {
            a
        } else {
            a.push(xs.last())
        }
    }
}

/// The labels without `x`.
pub open spec fn drop_label(ls: Seq<Seq<char>>, x: Seq<char>) -> Seq<Seq<char>>
    decreases ls.len(),
{
    if ls.len() == 0 {
        ls
    } else {
        let r = drop_label(ls.drop_last(), x);
        if ls.last() == x {
            r
        } else {
            r.push(ls.last())
        }
    }
}

/// The labels without any of `xs`.
pub open spec fn remove_labels(ls: Seq<Seq<char>>, xs: Seq<Seq<char>>) -> Seq<Seq<char>>
    decreases xs.len(),
{
    if xs.len() == 0 {
        ls
    } else {
        drop_label(remove_labels(ls, xs.drop_last()), xs.last())
    }
}

pub open spec fn texts_of(o: Option<Vec<String>>) -> Option<Seq<Seq<char>>> {
    match o {
        Some(v) => Some(texts(v@)),
        None => None,
    }
}

/// What a user field becomes: the `me` sentinel resolved, other values as given.
pub open spec fn resolved_user(users: Users, settings: Settings, v: Seq<char>) -> Option<Seq<char>> {
    if v == "me"@ {
        if me_resolves(users, settings) {
            Some(settings.user@)
        } else {
            None
        }
    } else {
        Some(v)
    }
}

/// The record after every requested change, with the names of the changed
/// fields in order, or the first refusal. The order is title, state, type,
/// reporter, assignee, priority, due date, labels; a field is only checked
/// when its new value differs from the current one. A record with a changed
/// field gets `now` as its update time.
pub open spec fn set_outcome(
    m: MetaView,
    ch: FieldChanges,
    cfg: Config,
    users: Users,
    settings: Settings,
    now: Seq<char>,
) -> Result<Progress, SetFault> {
    let start: Progress = (m, Seq::empty());
    // title
    let titled: Progress = match opt_text(ch.title) {
        Some(v) => if v != start.0.title {
            (MetaView { title: v, ..start.0 }, start.1.push("title"@))
        } else {
            start
        },
        None => start,
    };
    // state
    match opt_text(ch.state) {
        Some(v) => if v != titled.0.state && !listed(cfg.states@, v) {
            Err(SetFault::InvalidState(v))
        } else {
            let stated: Progress = if v != titled.0.state {
                (MetaView { state: v, ..titled.0 }, titled.1.push("state"@))
            } else {
                titled
            };
            set_outcome_type(stated, ch, cfg, users, settings, now)
        },
        None => set_outcome_type(titled, ch, cfg, users, settings, now),
    }
}

pub open spec fn set_outcome_type(
    p: Progress,
    ch: FieldChanges,
    cfg: Config,
    users: Users,
    settings: Settings,
    now: Seq<char>,
) -> Result<Progress, SetFault> {
    match opt_text(ch.type_) {
        Some(v) => if v != p.0.type_ && !(v.len() == 0 || listed(cfg.types@, v)) {
            Err(SetFault::InvalidType(v))
        } else {
            let q: Progress = if v != p.0.type_ {
                (MetaView { type_: v, ..p.0 }, p.1.push("type"@))
            } else {
                p
            };
            set_outcome_reporter(q, ch, users, settings, now)
        },
        None => set_outcome_reporter(p, ch, users, settings, now),
    }
}

pub open spec fn set_outcome_reporter(
    p: Progress,
    ch: FieldChanges,
    users: Users,
    settings: Settings,
    now: Seq<char>,
) -> Result<Progress, SetFault> {
    match opt_text(ch.reporter) {
        Some(v) => if v == p.0.reporter {
            set_outcome_assignee(p, ch, users, settings, now)
        } else if !valid_user(users, v) {
            Err(SetFault::InvalidReporter(v))
        } else {
            match resolved_user(users, settings, v) {
                None => Err(SetFault::UnresolvedMe),
                Some(u) => {
                    let q: Progress = if u != p.0.reporter {
                        (MetaView { reporter: u, ..p.0 }, p.1.push("reporter"@))
                    } else {
                        p
                    };
                    set_outcome_assignee(q, ch, users, settings, now)
                },
            }
        },
        None => set_outcome_assignee(p, ch, users, settings, now),
    }
}

pub open spec fn set_outcome_assignee(
    p: Progress,
    ch: FieldChanges,
    users: Users,
    settings: Settings,
    now: Seq<char>,
) -> Result<Progress, SetFault> {
    match opt_text(ch.assignee) {
        Some(v) => if v == p.0.assignee {
            set_outcome_rest(p, ch, now)
        } else if !valid_user(users, v) {
            Err(SetFault::InvalidAssignee(v))
        } else {
            match resolved_user(users, settings, v) {
                None => Err(SetFault::UnresolvedMe),
                Some(u) => {
                    let q: Progress = if u != p.0.assignee {
                        (MetaView { assignee: u, ..p.0 }, p.1.push("assignee"@))
                    } else {
                        p
                    };
                    set_outcome_rest(q, ch, now)
                },
            }
        },
        None => set_outcome_rest(p, ch, now),
    }
}

pub open spec fn set_outcome_rest(p: Progress, ch: FieldChanges, now: Seq<char>) -> Result<
    Progress,
    SetFault,
> {
    let ranked: Progress = match ch.priority {
        Some(v) => if v != p.0.priority {
            (MetaView { priority: v, ..p.0 }, p.1.push("priority"@))
        } else {
            p
        },
        None => p,
    };
    match opt_text(ch.due_date) {
        Some(v) => if v != ranked.0.due_date && !(v.len() == 0 || iso_date(v)) {
            Err(SetFault::InvalidDueDate)
        } else {
            let dated: Progress = if v != ranked.0.due_date {
                (MetaView { due_date: v, ..ranked.0 }, ranked.1.push("due_date"@))
            } else {
                ranked
            };
            Ok(finish_labels(dated, ch, now))
        },
        None => Ok(finish_labels(ranked, ch, now)),
    }
}

pub open spec fn finish_labels(p: Progress, ch: FieldChanges, now: Seq<char>) -> Progress {
    let l0 = p.0.labels;
    let (l1, set) = match texts_of(ch.labels) {
        Some(v) => if v != l0 {
            (non_empty(v), true)
        } else {
            (l0, false)
        },
        None => (l0, false),
    };
    let l2 = match texts_of(ch.labels_add) {
        Some(xs) => add_labels(l1, xs),
        None => l1,
    };
    let l3 = match texts_of(ch.labels_remove) {
        Some(xs) => remove_labels(l2, xs),
        None => l2,
    };
    let changed = set || l2.len() != l1.len() || l3.len() != l2.len();
    let fields = if changed {
        p.1.push("labels"@)
    } else {
        p.1
    };
    let m = MetaView { labels: l3, ..p.0 };
    if fields.len() > 0 {
        (MetaView { updated: now, ..m }, fields)
    } else {
        (m, fields)
    }
}

fn push_name(v: &mut Vec<String>, s: &str)
    ensures
        texts(final(v)@) == texts(old(v)@).push(s@),
{
    let ghost before = v@;
    v.push(String::from_str(s));
    assert(texts(v@) =~= texts(before).push(s@));
}

fn same_texts(a: &Vec<String>, b: &Vec<String>) -> (r: bool)
    ensures
        r == (texts(a@) == texts(b@)),
{
    if a.len() != b.len() {
        assert(texts(a@).len() != texts(b@).len());
        return false;
    }
    let mut i: usize = 0;
    while i < a.len()
        invariant
            i <= a@.len() == b@.len(),
            forall|k: int| 0 <= k < i ==> (#[trigger] a@[k])@ == b@[k]@,
        decreases a@.len() - i,
    {
        if !same_text(a[i].as_str(), b[i].as_str()) {
            assert(texts(a@)[i as int] != texts(b@)[i as int]);
            return false;
        }
        i = i + 1;
    }
    assert(texts(a@) =~= texts(b@));
    true
}

fn keep_non_empty(v: &Vec<String>) -> (r: Vec<String>)
    ensures
        texts(r@) == non_empty(texts(v@)),
{
    let ghost t = texts(v@);
    let mut r: Vec<String> = Vec::new();
    let mut i: usize = 0;
    while i < v.len()
        invariant
            i <= v@.len(),
            t == texts(v@),
            texts(r@) == non_empty(t.subrange(0, i as int)),
        decreases v@.len() - i,
    {
        let ghost p = t.subrange(0, i + 1);
        assert(p.drop_last() =~= t.subrange(0, i as int));
        assert(p.last() == v@[i as int]@);
        let ghost before = r@;
        if !v[i].as_str().is_empty() {
            r.push(v[i].clone());
            assert(texts(r@) =~= texts(before).push(v@[i as int]@));
        }
        i = i + 1;
    }
    assert(t.subrange(0, i as int) =~= t);
    r
}

fn without_label(v: &Vec<String>, x: &str) -> (r: Vec<String>)
    ensures
        texts(r@) == drop_label(texts(v@), x@),
{
    let ghost t = texts(v@);
    let mut r: Vec<String> = Vec::new();
    let mut i: usize = 0;
    while i < v.len()
        invariant
            i <= v@.len(),
            t == texts(v@),
            texts(r@) == drop_label(t.subrange(0, i as int), x@),
        decreases v@.len() - i,
    {
        let ghost p = t.subrange(0, i + 1);
        assert(p.drop_last() =~= t.subrange(0, i as int));
        assert(p.last() == v@[i as int]@);
        let ghost before = r@;
        if !same_text(v[i].as_str(), x) {
            r.push(v[i].clone());
            assert(texts(r@) =~= texts(before).push(v@[i as int]@));
        }
        i = i + 1;
    }
    assert(t.subrange(0, i as int) =~= t);
    r
}

proof fn lemma_listed_contains(v: Seq<String>, x: Seq<char>)
    ensures
        listed(v, x) == texts(v).contains(x),
{
    if listed(v, x) {
        let i = choose|i: int| 0 <= i < v.len() && (#[trigger] v[i])@ == x;
        assert(texts(v)[i] == x);
    }
    if texts(v).contains(x) {
        let i = choose|i: int| 0 <= i < texts(v).len() && texts(v)[i] == x;
        assert(v[i]@ == x);
    }
}

/// The labels after the label changes, and whether any of them changed the list.
fn change_labels(current: Vec<String>, ch: &FieldChanges) -> (r: (Vec<String>, bool))
    ensures
        ({
            let l0 = texts(current@);
            let (l1, set) = match texts_of(ch.labels) {
                Some(v) => if v != l0 {
                    (non_empty(v), true)
                } else {
                    (l0, false)
                },
                None => (l0, false),
            };
            let l2 = match texts_of(ch.labels_add) {
                Some(xs) => add_labels(l1, xs),
                None => l1,
            };
            let l3 = match texts_of(ch.labels_remove) {
                Some(xs) => remove_labels(l2, xs),
                None => l2,
            };
            texts(r.0@) == l3 && r.1 == (set || l2.len() != l1.len() || l3.len() != l2.len())
        }),
{
    let mut labels = current;
    let mut set = false;
    if let Some(v) = &ch.labels {
        if !same_texts(&labels, v) {
            labels = keep_non_empty(v);
            set = true;
        }
    }
    let ghost l1 = texts(labels@);
    let n1 = labels.len();
    if let Some(xs) = &ch.labels_add {
        let mut k: usize = 0;
        while k < xs.len()
            invariant
                k <= xs@.len(),
                texts(labels@) == add_labels(l1, texts(xs@).subrange(0, k as int)),
            decreases xs@.len() - k,
        {
            let ghost p = texts(xs@).subrange(0, k + 1);
            assert(p.drop_last() =~= texts(xs@).subrange(0, k as int));
            assert(p.last() == xs@[k as int]@);
            proof {
                lemma_listed_contains(labels@, xs@[k as int]@);
            }
            if !is_listed(&labels, xs[k].as_str()) {
                let ghost before = labels@;
                labels.push(xs[k].clone());
                assert(texts(labels@) =~= texts(before).push(xs@[k as int]@));
            }
            k = k + 1;
        }
        assert(texts(xs@).subrange(0, k as int) =~= texts(xs@));
    }
    let ghost l2 = texts(labels@);
    let n2 = labels.len();
    if let Some(xs) = &ch.labels_remove {
        let mut k: usize = 0;
        while k < xs.len()
            invariant
                k <= xs@.len(),
                texts(labels@) == remove_labels(l2, texts(xs@).subrange(0, k as int)),
            decreases xs@.len() - k,
        {
            let ghost p = texts(xs@).subrange(0, k + 1);
            assert(p.drop_last() =~= texts(xs@).subrange(0, k as int));
            assert(p.last() == xs@[k as int]@);
            labels = without_label(&labels, xs[k].as_str());
            k = k + 1;
        }
        assert(texts(xs@).subrange(0, k as int) =~= texts(xs@));
    }
    let n3 = labels.len();
    let changed = set || n2 != n1 || n3 != n2;
    (labels, changed)
}

/// Checks a new user value and resolves `me`; `Ok(None)` when it equals the current value.
fn check_user(
    users: &Users,
    settings: &Settings,
    current: &String,
    v: &String,
    reporter: bool,
) -> (r: Result<Option<String>, SetError>)
    ensures
        v@ == current@ ==> r matches Ok(None),
        v@ != current@ ==> match r {
            Ok(Some(u)) => valid_user(*users, v@) && resolved_user(*users, *settings, v@) == Some(
                u@,
            ),
            Ok(None) => false,
            Err(e) => if !valid_user(*users, v@) {
                set_fault(e) == if reporter {
                    SetFault::InvalidReporter(v@)
                } else {
                    SetFault::InvalidAssignee(v@)
                }
            } else {
                resolved_user(*users, *settings, v@) is None && set_fault(e) == SetFault::UnresolvedMe
            },
        },
{
    if same_text(v.as_str(), current.as_str()) {
        return Ok(None);
    }
    if !is_valid_user(users, v.as_str()) {
        return Err(
            if reporter {
                SetError::InvalidReporter(v.clone())
            } else {
                SetError::InvalidAssignee(v.clone())
            },
        );
    }
    let mut u = v.clone();
    match user_handle_me(users, settings, &mut u) {
        Ok(()) => Ok(Some(u)),
        Err(_) => Err(SetError::UnresolvedMe),
    }
}

pub open spec fn progress(m: Meta, fields: Vec<String>) -> Progress {
    (m@, texts(fields@))
}

pub open spec fn stage_result(
    o: Result<Progress, SetFault>,
    r: Result<(Meta, Vec<String>), SetError>,
) -> bool {
    match o {
        Ok((m, fields)) => r matches Ok((nm, nf)) && nm@ == m && texts(nf@) == fields,
        Err(f) => r matches Err(e) && set_fault(e) == f,
    }
}

fn finish(m: Meta, fields: Vec<String>, ch: &FieldChanges, now: &str) -> (r: (Meta, Vec<String>))
    ensures
        finish_labels(progress(m, fields), *ch, now@) == progress(r.0, r.1),
{
    let mut m = m;
    let mut fields = fields;
    let ghost m0 = m@;
    let mut labels: Vec<String> = Vec::new();
    std::mem::swap(&mut labels, &mut m.labels);
    let (labels, changed) = change_labels(labels, ch);
    m.labels = labels;
    if changed {
        push_name(&mut fields, "labels");
    }
    if fields.len() > 0 {
        m.updated = String::from_str(now);
    }
    proof {
        assert(texts(fields@).len() == fields@.len());
    }
    (m, fields)
}

fn apply_rest(m: Meta, fields: Vec<String>, ch: &FieldChanges, now: &str) -> (r: Result<
    (Meta, Vec<String>),
    SetError,
>)
    ensures
        stage_result(set_outcome_rest(progress(m, fields), *ch, now@), r),
{
    let mut m = m;
    let mut fields = fields;
    if let Some(v) = ch.priority {
        if v != m.priority {
            m.priority = v;
            push_name(&mut fields, "priority");
        }
    }
    if let Some(v) = &ch.due_date {
        if !same_text(v.as_str(), m.due_date.as_str()) {
            if !is_valid_iso_date(v.as_str()) {
                return Err(SetError::InvalidDueDate);
            }
            m.due_date = v.clone();
            push_name(&mut fields, "due_date");
        }
    }
    Ok(finish(m, fields, ch, now))
}

fn apply_assignee(
    m: Meta,
    fields: Vec<String>,
    ch: &FieldChanges,
    users: &Users,
    settings: &Settings,
    now: &str,
) -> (r: Result<(Meta, Vec<String>), SetError>)
    ensures
        stage_result(set_outcome_assignee(progress(m, fields), *ch, *users, *settings, now@), r),
{
    let mut m = m;
    let mut fields = fields;
    if let Some(v) = &ch.assignee {
        match check_user(users, settings, &m.assignee, v, false) {
            Err(e) => {
                return Err(e);
            },
            Ok(None) => {},
            Ok(Some(u)) => {
                if !same_text(u.as_str(), m.assignee.as_str()) {
                    m.assignee = u;
                    push_name(&mut fields, "assignee");
                }
            },
        }
    }
    apply_rest(m, fields, ch, now)
}

fn apply_reporter(
    m: Meta,
    fields: Vec<String>,
    ch: &FieldChanges,
    users: &Users,
    settings: &Settings,
    now: &str,
) -> (r: Result<(Meta, Vec<String>), SetError>)
    ensures
        stage_result(set_outcome_reporter(progress(m, fields), *ch, *users, *settings, now@), r),
{
    let mut m = m;
    let mut fields = fields;
    if let Some(v) = &ch.reporter {
        match check_user(users, settings, &m.reporter, v, true) {
            Err(e) => {
                return Err(e);
            },
            Ok(None) => {},
            Ok(Some(u)) => {
                if !same_text(u.as_str(), m.reporter.as_str()) {
                    m.reporter = u;
                    push_name(&mut fields, "reporter");
                }
            },
        }
    }
    apply_assignee(m, fields, ch, users, settings, now)
}

fn apply_type(
    m: Meta,
    fields: Vec<String>,
    ch: &FieldChanges,
    config: &Config,
    users: &Users,
    settings: &Settings,
    now: &str,
) -> (r: Result<(Meta, Vec<String>), SetError>)
    ensures
        stage_result(
            set_outcome_type(progress(m, fields), *ch, *config, *users, *settings, now@),
            r,
        ),
{
    let mut m = m;
    let mut fields = fields;
    if let Some(v) = &ch.type_ {
        if !same_text(v.as_str(), m.type_.as_str()) {
            if !is_valid_type(config, v.as_str()) {
                return Err(SetError::InvalidType(v.clone()));
            }
            m.type_ = v.clone();
            push_name(&mut fields, "type");
        }
    }
    apply_reporter(m, fields, ch, users, settings, now)
}

/// Applies the requested changes to one issue. Returns the new record and the
/// names of the changed fields, or the first refusal.
pub fn apply_changes(
    meta: Meta,
    ch: &FieldChanges,
    config: &Config,
    users: &Users,
    settings: &Settings,
    now: &str,
) -> (r: Result<(Meta, Vec<String>), SetError>)
    ensures
        stage_result(set_outcome(meta@, *ch, *config, *users, *settings, now@), r),
{
    let mut m = meta;
    let mut fields: Vec<String> = Vec::new();
    assert(texts(fields@) =~= Seq::<Seq<char>>::empty());
    if let Some(v) = &ch.title {
        if !same_text(v.as_str(), m.title.as_str()) {
            m.title = v.clone();
            push_name(&mut fields, "title");
        }
    }
    if let Some(v) = &ch.state {
        if !same_text(v.as_str(), m.state.as_str()) {
            if !is_valid_state(config, v.as_str()) {
                return Err(SetError::InvalidState(v.clone()));
            }
            m.state = v.clone();
            push_name(&mut fields, "state");
        }
    }
    apply_type(m, fields, ch, config, users, settings, now)
}

/// Why a new issue was refused.
#[derive(Clone, Debug)]
pub enum NewError {
    /// The configuration lists no state to start in.
    NoStates,
    Invalid(SetError),
}

/// A new issue before its fields are set: the first configured state, the
/// settings' user as reporter, the configured default priority, everything
/// else empty, created and updated `now`.
pub open spec fn blank(id: u32, title: Seq<char>, cfg: Config, settings: Settings, now: Seq<char>) -> MetaView {
    MetaView {
        id,
        title,
        state: cfg.states@[0]@,
        type_: Seq::empty(),
        labels: Seq::empty(),
        reporter: settings.user@,
        assignee: Seq::empty(),
        priority: cfg.priority_default,
        due_date: Seq::empty(),
        relationships: Seq::empty(),
        created: now,
        updated: now,
    }
}

/// Creates issue `id`: it starts in the first configured state, reported by
/// the settings' user, with the default priority, then gets the given fields
/// under the same checks as a change of fields.
pub fn new_issue(
    id: u32,
    title: &str,
    ch: &FieldChanges,
    config: &Config,
    users: &Users,
    settings: &Settings,
    now: &str,
) -> (r: Result<Meta, NewError>)
    ensures
        config.states@.len() == 0 ==> r matches Err(NewError::NoStates),
        config.states@.len() > 0 ==> match set_outcome(
            blank(id, title@, *config, *settings, now@),
            *ch,
            *config,
            *users,
            *settings,
            now@,
        ) {
            Ok((m, _)) => r matches Ok(nm) && nm@ == m,
            Err(f) => r matches Err(NewError::Invalid(e)) && set_fault(e) == f,
        },
{
    if config.states.len() == 0 {
        return Err(NewError::NoStates);
    }
    let meta = Meta {
        id,
        title: String::from_str(title),
        state: config.states[0].clone(),
        type_: String::new(),
        labels: Vec::new(),
        reporter: settings.user.clone(),
        assignee: String::new(),
        priority: config.priority_default,
        due_date: String::new(),
        relationships: rel_new(),
        created: String::from_str(now),
        updated: String::from_str(now),
    };
    assert(texts(meta.labels@) =~= Seq::<Seq<char>>::empty());
    assert(meta@ == blank(id, title@, *config, *settings, now@));
    match apply_changes(meta, ch, config, users, settings, now) {
        Ok((m, _)) => Ok(m),
        Err(e) => Err(NewError::Invalid(e)),
    }
}

/// The id after the largest of `ids`; 1 when there are none.
pub open spec fn next_id_of(ids: Seq<u32>) -> int
    decreases ids.len(),
{
    if ids.len() == 0 {
        1
    } else {
        let m = next_id_of(ids.drop_last());
        if ids.last() + 1 > m {
            ids.last() + 1
        } else {
            m
        }
    }
}

/// The next sequential id after the existing ones; `None` when the largest
/// existing id is the largest `u32`.
pub fn next_id(ids: &Vec<u32>) -> (r: Option<u32>)
    ensures
        match r {
            Some(n) => n as int == next_id_of(ids@),
            None => next_id_of(ids@) > u32::MAX,
        },
{
    let mut max: u32 = 0;
    let mut k: usize = 0;
    while k < ids.len()
        invariant
            k <= ids@.len(),
            next_id_of(ids@.subrange(0, k as int)) == max + 1,
        decreases ids@.len() - k,
    {
        let ghost p = ids@.subrange(0, k + 1);
        assert(p.drop_last() =~= ids@.subrange(0, k as int));
        assert(p.last() == ids@[k as int]);
        if ids[k] > max {
            max = ids[k];
        }
        k = k + 1;
    }
    assert(ids@.subrange(0, k as int) =~= ids@);
    if max == u32::MAX {
        None
    } else {
        Some(max + 1)
    }
}

/// How many records changed, given how many fields changed in each.
pub open spec fn changed_records(fields_changed: Seq<usize>) -> nat
    decreases fields_changed.len(),
{
    if fields_changed.len() == 0 {
        0
    } else {
        changed_records(fields_changed.drop_last()) + if fields_changed.last() > 0 {
            1nat
        } else {
            0nat
        }
    }
}

/// The number of updated records of a change over several issues, given how
/// many fields changed in each; `None` when no record changed, which fails
/// the change as a whole.
pub fn count_updated(fields_changed: &Vec<usize>) -> (r: Option<usize>)
    ensures
        changed_records(fields_changed@) == 0 ==> r is None,
        changed_records(fields_changed@) > 0 ==> r == Some(changed_records(fields_changed@) as usize),
{
    let mut n: usize = 0;
    let mut k: usize = 0;
    while k < fields_changed.len()
        invariant
            k <= fields_changed@.len(),
            n as nat == changed_records(fields_changed@.subrange(0, k as int)),
            n <= k,
        decreases fields_changed@.len() - k,
    {
        let ghost p = fields_changed@.subrange(0, k + 1);
        assert(p.drop_last() =~= fields_changed@.subrange(0, k as int));
        assert(p.last() == fields_changed@[k as int]);
        if fields_changed[k] > 0 {
            n = n + 1;
        }
        k = k + 1;
    }
    assert(fields_changed@.subrange(0, k as int) =~= fields_changed@);
    if n == 0 {
        None
    } else {
        Some(n)
    }
}

} // verus!
