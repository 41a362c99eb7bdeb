//! The data of the tracker: issue records, configuration, users, and the
//! request types of the query and link commands.
use crate::relmap::{rel_entries, RelMap};
use crate::text::chars_of;
use vstd::prelude::*;

verus! {

/// Priority of an issue: unset, or one of `P0` to `P4`.
#[derive(Debug, Clone, Copy, PartialEq, Eq, Structural)]
pub enum Priority {
    Empty,
    P0,
    P1,
    P2,
    P3,
    P4,
}

/// The declared order of priorities: unset first, then `P0` to `P4`.
pub open spec fn rank(p: Priority) -> int {
    match p {
        Priority::Empty => 0,
        Priority::P0 => 1,
        Priority::P1 => 2,
        Priority::P2 => 3,
        Priority::P3 => 4,
        Priority::P4 => 5,
    }
}

/// The token that names a priority, in either case; the empty token names no priority.
pub open spec fn priority_of(s: Seq<char>) -> Option<Priority> {
    if s == ""@ {
        Some(Priority::Empty)
    } else if s == "p0"@ || s == "P0"@ {
        Some(Priority::P0)
    } else if s == "p1"@ || s == "P1"@ {
        Some(Priority::P1)
    } else if s == "p2"@ || s == "P2"@ {
        Some(Priority::P2)
    } else if s == "p3"@ || s == "P3"@ {
        Some(Priority::P3)
    } else if s == "p4"@ || s == "P4"@ {
        Some(Priority::P4)
    } else {
        None
    }
}

/// The symbolic tag of a priority; empty when unset.
pub open spec fn priority_tag(p: Priority) -> Seq<char> {
    match p {
        Priority::Empty => ""@,
        Priority::P0 => "P0"@,
        Priority::P1 => "P1"@,
        Priority::P2 => "P2"@,
        Priority::P3 => "P3"@,
        Priority::P4 => "P4"@,
    }
}

/// Whether two strings hold the same characters.
pub fn same_text(a: &str, b: &str) -> (r: bool)
    ensures
        r == (a@ == b@),
{
    let x = chars_of(a);
    let y = chars_of(b);
    if x.len() != y.len() {
        return false;
    }
    let mut i: usize = 0;
    while i < x.len()
        invariant
            x@ == a@,
            y@ == b@,
            x@.len() == y@.len(),
            i <= x@.len(),
            forall|k: int| 0 <= k < i ==> x@[k] == y@[k],
        decreases x@.len() - i,
    {
        if x[i] != y[i] {
            return false;
        }
        i = i + 1;
    }
    assert(x@ =~= y@);
    true
}

/// Whether some string of `list` holds the characters of `s`.
pub open spec fn listed(list: Seq<String>, s: Seq<char>) -> bool {
    exists|i: int| 0 <= i < list.len() && (#[trigger] list[i])@ == s
}

pub fn is_listed(list: &Vec<String>, s: &str) -> (r: bool)
    ensures
        r == listed(list@, s@),
{
    let mut i: usize = 0;
    while i < list.len()
        invariant
            i <= list@.len(),
            forall|k: int| 0 <= k < i ==> (#[trigger] list@[k])@ != s@,
        decreases list@.len() - i,
    {
        if same_text(list[i].as_str(), s) {
            return true;
        }
        i = i + 1;
    }
    false
}

impl Priority {
    /// The rank of the priority in its declared order.
    pub fn as_int(&self) -> (r: u8)
        ensures
            r as int == rank(*self),
    {
        match self {
            Priority::Empty => 0,
            Priority::P0 => 1,
            Priority::P1 => 2,
            Priority::P2 => 3,
            Priority::P3 => 4,
            Priority::P4 => 5,
        }
    }

    /// Reads a priority token: `p0` to `p4` in either case, or the empty token.
    pub fn from_str(s: &str) -> (r: Result<Priority, String>)
        ensures
            match r {
                Ok(p) => priority_of(s@) == Some(p),
                Err(e) => priority_of(s@) is None && e@ == "Unknown priority: "@ + s@,
            },
    {
        if same_text(s, "") {
            Ok(Priority::Empty)
        } else if same_text(s, "p0") || same_text(s, "P0") {
            Ok(Priority::P0)
        } else if same_text(s, "p1") || same_text(s, "P1") {
            Ok(Priority::P1)
        } else if same_text(s, "p2") || same_text(s, "P2") {
            Ok(Priority::P2)
        } else if same_text(s, "p3") || same_text(s, "P3") {
            Ok(Priority::P3)
        } else if same_text(s, "p4") || same_text(s, "P4") {
            Ok(Priority::P4)
        } else {
            Err(String::from_str("Unknown priority: ").concat(s))
        }
    }

    /// The symbolic tag, empty when unset.
    pub fn tag(&self) -> (r: String)
        ensures
            r@ == priority_tag(*self),
    {
        match self {
            Priority::Empty => {
                proof {
                    reveal_strlit("");
                }
                String::new()
            },
            Priority::P0 => String::from_str("P0"),
            Priority::P1 => String::from_str("P1"),
            Priority::P2 => String::from_str("P2"),
            Priority::P3 => String::from_str("P3"),
            Priority::P4 => String::from_str("P4"),
        }
    }
}

/// A change to the relationships of an issue: `<relationship>=<id>[,<id>...]`.
#[derive(Clone, Debug)]
pub struct RelationshipLink {
    pub relationship: String,
    pub target_ids: Vec<u32>,
}

/// The comparison of a filter.
#[derive(Clone, Copy, Debug, PartialEq, Eq, Structural)]
pub enum Operator {
    Eq,
    Lt,
    Gt,
}

/// A condition on one field of the issues: `<field>{=|>|<}<value>`.
#[derive(Clone, Debug)]
pub struct Filter {
    pub field: String,
    pub operator: Operator,
    pub value: String,
}

/// A direction of sorting.
#[derive(Clone, Copy, Debug, PartialEq, Eq, Structural)]
pub enum Order {
    Asc,
    Desc,
}

/// A sort key: `<field>=<asc|desc>`.
#[derive(Clone, Debug)]
pub struct Sorting {
    pub field: String,
    pub order: Order,
}

/// The configuration of a relationship type: the type that mirrors it on the
/// linked issues, if any.
#[derive(Clone, Debug)]
pub struct Relationship {
    pub link: Option<String>,
}

/// How new issue ids are allocated.
#[derive(Clone, Copy, Debug, PartialEq, Eq, Structural)]
pub enum IdGeneration {
    Sequential,
    Timestamp,
}

/// The project configuration. `relationships` lists each configured
/// relationship type once, in the configured order.
#[derive(Clone, Debug)]
pub struct Config {
    pub commit_auto: bool,
    pub commit_message: String,
    pub list_columns: Vec<String>,
    pub states: Vec<String>,
    pub types: Vec<String>,
    pub relationships: Vec<(String, Relationship)>,
    pub export_csv_separator: char,
    pub id_generation: IdGeneration,
    /// The priority a new issue starts with.
    pub priority_default: Priority,
}

impl Config {
    /// Each relationship type is configured once.
    pub open spec fn wf(&self) -> bool {
        forall|i: int, j: int|
            0 <= i < j < self.relationships@.len() ==> (#[trigger] self.relationships@[i]).0@
                != (#[trigger] self.relationships@[j]).0@
    }

    /// Whether each relationship type is configured once.
    pub fn is_well_formed(&self) -> (r: bool)
        ensures
            r == self.wf(),
    {
        let rs = &self.relationships;
        let mut j: usize = 0;
        while j < rs.len()
            invariant
                j <= rs@.len(),
                rs@ == self.relationships@,
                forall|a: int, b: int| 0 <= a < b < j ==> (#[trigger] rs@[a]).0@ != (#[trigger] rs@[b]).0@,
            decreases rs@.len() - j,
        {
            let mut i: usize = 0;
            while i < j
                invariant
                    i <= j < rs@.len(),
                    rs@ == self.relationships@,
                    forall|a: int, b: int| 0 <= a < b < j ==> (#[trigger] rs@[a]).0@ != (#[trigger] rs@[b]).0@,
                    forall|a: int| 0 <= a < i ==> (#[trigger] rs@[a]).0@ != rs@[j as int].0@,
                decreases j - i,
            {
                if same_text(rs[i].0.as_str(), rs[j].0.as_str()) {
                    return false;
                }
                i = i + 1;
            }
            j = j + 1;
        }
        true
    }
}

/// The settings of the local user.
#[derive(Clone, Debug)]
pub struct Settings {
    pub editor: String,
    pub user: String,
}

#[derive(Clone, Debug)]
pub struct User {
    pub id: String,
}

/// The roster of known users.
#[derive(Clone, Debug)]
pub struct Users {
    pub users: Vec<User>,
}

/// The metadata of one issue.
#[derive(Debug)]
pub struct Meta {
    pub id: u32,
    pub title: String,
    pub state: String,
    pub type_: String,
    pub labels: Vec<String>,
    pub reporter: String,
    pub assignee: String,
    pub priority: Priority,
    pub due_date: String,
    pub relationships: RelMap,
    pub created: String,
    pub updated: String,
}

/// The mathematical content of an issue record.
pub ghost struct MetaView {
    pub id: u32,
    pub title: Seq<char>,
    pub state: Seq<char>,
    pub type_: Seq<char>,
    pub labels: Seq<Seq<char>>,
    pub reporter: Seq<char>,
    pub assignee: Seq<char>,
    pub priority: Priority,
    pub due_date: Seq<char>,
    pub relationships: Seq<(Seq<char>, Seq<u32>)>,
    pub created: Seq<char>,
    pub updated: Seq<char>,
}

pub open spec fn texts(v: Seq<String>) -> Seq<Seq<char>> {
    v.map_values(|s: String| s@)
}

impl View for Meta {
    type V = MetaView;

    open spec fn view(&self) -> MetaView {
        MetaView {
            id: self.id,
            title: self.title@,
            state: self.state@,
            type_: self.type_@,
            labels: texts(self.labels@),
            reporter: self.reporter@,
            assignee: self.assignee@,
            priority: self.priority,
            due_date: self.due_date@,
            relationships: rel_entries(self.relationships),
            created: self.created@,
            updated: self.updated@,
        }
    }
}

/// Whether `s` is one of the configured states.
pub fn is_valid_state(config: &Config, s: &str) -> (r: bool)
    ensures
        r == listed(config.states@, s@),
{
    is_listed(&config.states, s)
}

/// Whether `s` is empty or one of the configured types.
pub fn is_valid_type(config: &Config, s: &str) -> (r: bool)
    ensures
        r == (s@.len() == 0 || listed(config.types@, s@)),
{
    s.is_empty() || is_listed(&config.types, s)
}

pub open spec fn user_known(users: Users, s: Seq<char>) -> bool {
    exists|i: int| 0 <= i < users.users@.len() && (#[trigger] users.users@[i]).id@ == s
}

/// Whether `s` is empty, the `me` sentinel, or a known user id.
pub open spec fn valid_user(users: Users, s: Seq<char>) -> bool {
    s.len() == 0 || s == "me"@ || user_known(users, s)
}

/// Whether `s` is empty, the `me` sentinel, or the id of a known user.
pub fn is_valid_user(users: &Users, s: &str) -> (r: bool)
    ensures
        r == valid_user(*users, s@),
{
    s.is_empty() || same_text(s, "me") || is_known_user(users, s)
}

/// Whether `s` is the id of a user of the roster.
pub fn is_known_user(users: &Users, s: &str) -> (r: bool)
    ensures
        r == user_known(*users, s@),
{
    let mut i: usize = 0;
    while i < users.users.len()
        invariant
            i <= users.users@.len(),
            forall|k: int| 0 <= k < i ==> (#[trigger] users.users@[k]).id@ != s@,
        decreases users.users@.len() - i,
    {
        if same_text(users.users[i].id.as_str(), s) {
            return true;
        }
        i = i + 1;
    }
    false
}

/// Whether the `me` sentinel can be resolved: the settings name no user, or
/// a user of the roster. The sentinel itself is never a resolution.
pub open spec fn me_resolves(users: Users, settings: Settings) -> bool {
    settings.user@.len() == 0 || (settings.user@ != "me"@ && user_known(users, settings.user@))
}

/// Resolving `me` never yields the sentinel itself.
pub proof fn lemma_me_never_stored(users: Users, settings: Settings)
    ensures
        me_resolves(users, settings) ==> settings.user@ != "me"@,
{
    reveal_strlit("me");
}

/// Replaces the `me` sentinel by the user of the settings. Other values stay.
/// Fails, leaving the value, when the settings' user is neither empty nor a
/// user of the roster.
pub fn user_handle_me(users: &Users, settings: &Settings, value: &mut String) -> (r: Result<(), String>)
    ensures
        old(value)@ != "me"@ ==> r is Ok && final(value)@ == old(value)@,
        old(value)@ == "me"@ ==> (r is Ok <==> me_resolves(*users, *settings)),
        old(value)@ == "me"@ && r is Ok ==> final(value)@ == settings.user@,
        r is Ok ==> final(value)@ != "me"@,
        r is Err ==> final(value)@ == old(value)@,
{
    if !same_text(value.as_str(), "me") {
        return Ok(());
    }
    proof {
        reveal_strlit("me");
    }
    let user = settings.user.as_str();
    if user.is_empty() || (!same_text(user, "me") && is_known_user(users, user)) {
        *value = settings.user.clone();
        Ok(())
    } else {
        Err(String::from_str("Invalid user: settings.yaml::user must be part of users.yaml:users or ''"))
    }
}

/// A dash in place of an empty value.
pub open spec fn or_dash(s: Seq<char>) -> Seq<char> {
    if s.len() == 0 {
        "-"@
    } else {
        s
    }
}

pub fn dash_if_empty(value: &str) -> (r: String)
    ensures
        r@ == or_dash(value@),
{
    if value.is_empty() {
        String::from_str("-")
    } else {
        String::from_str(value)
    }
}

/// The decimal digit for `d`.
pub open spec fn digit(d: nat) -> char {
    if d == 0 {
        '0'
    } else if d == 1 {
        '1'
    } else if d == 2 {
        '2'
    } else if d == 3 {
        '3'
    } else if d == 4 {
        '4'
    } else if d == 5 {
        '5'
    } else if d == 6 {
        '6'
    } else if d == 7 {
        '7'
    } else if d == 8 {
        '8'
    } else {
        '9'
    }
}

/// The decimal notation of `n`, without leading zeros.
pub open spec fn decimal(n: nat) -> Seq<char>
    decreases n,
{
    if n < 10 {
        seq![digit(n)]
    } else {
        decimal(n / 10).push(digit(n % 10))
    }
}

fn digit_char(d: u32) -> (r: char)
    requires
        d < 10,
    ensures
        r == digit(d as nat),
{
    if d == 0 {
        '0'
    } else if d == 1 {
        '1'
    } else if d == 2 {
        '2'
    } else if d == 3 {
        '3'
    } else if d == 4 {
        '4'
    } else if d == 5 {
        '5'
    } else if d == 6 {
        '6'
    } else if d == 7 {
        '7'
    } else if d == 8 {
        '8'
    } else {
        '9'
    }
}

/// The decimal notation of `n`.
pub fn u32_text(n: u32) -> (r: String)
    ensures
        r@ == decimal(n as nat),
    decreases n,
{
    let last = vec![digit_char(n % 10)];
    let tail = crate::text::string_of(&last);
    if n < 10 {
        assert(last@ =~= seq![digit(n as nat)]);
        tail
    } else {
        let head = u32_text(n / 10);
        assert(last@ =~= seq![digit((n % 10) as nat)]);
        let r = head.concat(tail.as_str());
        assert(r@ =~= decimal((n / 10) as nat).push(digit((n % 10) as nat)));
        r
    }
}

pub open spec fn zeros(k: nat) -> Seq<char> {
    Seq::new(k, |i: int| '0')
}

/// The decimal notation of an id, padded with zeros to ten digits.
pub open spec fn padded(id: u32) -> Seq<char> {
    let d = decimal(id as nat);
    if d.len() < 10 {
        zeros((10 - d.len()) as nat) + d
    } else {
        d
    }
}

pub fn padded_id(id: u32) -> (r: String)
    ensures
        r@ == padded(id),
{
    let d = u32_text(id);
    let n = d.as_str().unicode_len();
    if n >= 10 {
        return d;
    }
    let mut r = String::new();
    let mut k: usize = n;
    while k < 10
        invariant
            n <= k <= 10,
            n == d@.len(),
            r@ == zeros((k - n) as nat),
        decreases 10 - k,
    {
        r.append("0");
        proof {
            reveal_strlit("0");
        }
        k = k + 1;
        assert(r@ =~= zeros((k - n) as nat));
    }
    r.concat(d.as_str())
}

/// The value of a run of decimal digits.
pub open spec fn digits_value(s: Seq<char>) -> nat
    decreases s.len(),
{
    if s.len() == 0 {
        0
    } else {
        digits_value(s.drop_last()) * 10 + ((s.last() as u32) - ('0' as u32)) as nat
    }
}

pub open spec fn is_digit(c: char) -> bool {
    '0' <= c && c <= '9'
}

pub open spec fn all_digits(s: Seq<char>) -> bool {
    forall|i: int| 0 <= i < s.len() ==> is_digit(#[trigger] s[i])
}

/// The number that `s` writes as an optional `+` and one or more decimal
/// digits, if it fits in a `u32`.
pub open spec fn parse_u32(s: Seq<char>) -> Option<u32> {
    let d = if s.len() > 0 && s[0] == '+' {
        s.drop_first()
    } else {
        s
    };
    if d.len() > 0 && all_digits(d) && digits_value(d) <= u32::MAX {
        Some(digits_value(d) as u32)
    } else {
        None
    }
}

/// Reads a `u32` in decimal notation, with an optional leading `+`.
pub fn read_u32(s: &str) -> (r: Option<u32>)
    ensures
        r == parse_u32(s@),
{
    let cs = chars_of(s);
    let start: usize = if cs.len() > 0 && cs[0] == '+' {
        1
    } else {
        0
    };
    let ghost d = if s@.len() > 0 && s@[0] == '+' {
        s@.drop_first()
    } else {
        s@
    };
    assert(d =~= cs@.subrange(start as int, cs@.len() as int));
    assert(parse_u32(s@) == if d.len() > 0 && all_digits(d) && digits_value(d) <= u32::MAX {
        Some(digits_value(d) as u32)
    } else {
        None
    });
    if start >= cs.len() {
        return None;
    }
    let mut acc: u64 = 0;
    let mut big = false;
    let mut i: usize = start;
    while i < cs.len()
        invariant
            start <= i <= cs@.len(),
            cs@ == s@,
            d == cs@.subrange(start as int, cs@.len() as int),
            all_digits(cs@.subrange(start as int, i as int)),
            big ==> digits_value(cs@.subrange(start as int, i as int)) > u32::MAX,
            !big ==> acc as nat == digits_value(cs@.subrange(start as int, i as int)),
            !big ==> acc <= u32::MAX,
            parse_u32(s@) == if d.len() > 0 && all_digits(d) && digits_value(d) <= u32::MAX {
                Some(digits_value(d) as u32)
            } else {
                None
            },
        decreases cs@.len() - i,
    {
        let c = cs[i];
        if !('0' <= c && c <= '9') {
            assert(d[i - start] == c);
            assert(!is_digit(d[i - start]));
            assert(!all_digits(d));
            return None;
        }
        let ghost pre = cs@.subrange(start as int, i as int);
        let ghost nxt = cs@.subrange(start as int, i + 1);
        assert(nxt.drop_last() =~= pre);
        assert(nxt.last() == c);
        assert(all_digits(nxt)) by {
            assert forall|k: int| 0 <= k < nxt.len() implies is_digit(#[trigger] nxt[k]) by {
                if k < pre.len() {
                    assert(nxt[k] == pre[k]);
                }
            }
        }
        let dv: u64 = ((c as u32) - ('0' as u32)) as u64;
        if !big {
            acc = acc * 10 + dv;
            if acc > 0xffff_ffff {
                big = true;
            }
        } else {
            proof {
                let a = digits_value(pre);
                assert(a * 10 + dv >= a) by (nonlinear_arith)
                    requires
                        a >= 0,
                        dv >= 0,
                ;
            }
        }
        i = i + 1;
    }
    assert(cs@.subrange(start as int, i as int) =~= d);
    if big {
        None
    } else {
        Some(acc as u32)
    }
}

/// The base directory of the tracker's files.
pub fn gitissues_base() -> (r: String)
    ensures
        r@ == ".gitissues"@,
{
    String::from_str(".gitissues")
}

pub fn config_path() -> (r: String)
    ensures
        r@ == ".gitissues"@ + "/config.yaml"@,
{
    gitissues_base().concat("/config.yaml")
}

pub fn settings_path() -> (r: String)
    ensures
        r@ == ".gitissues"@ + "/settings.yaml"@,
{
    gitissues_base().concat("/settings.yaml")
}

pub fn users_path() -> (r: String)
    ensures
        r@ == ".gitissues"@ + "/users.yaml"@,
{
    gitissues_base().concat("/users.yaml")
}

/// The directory of one issue: its id padded to ten digits under `issues`.
pub fn issue_dir(id: u32) -> (r: String)
    ensures
        r@ == ".gitissues"@ + "/issues/"@ + padded(id),
{
    let p = padded_id(id);
    gitissues_base().concat("/issues/").concat(p.as_str())
}

pub fn issue_meta_path(id: u32) -> (r: String)
    ensures
        r@ == ".gitissues"@ + "/issues/"@ + padded(id) + "/meta.yaml"@,
{
    issue_dir(id).concat("/meta.yaml")
}

pub fn issue_desc_path(id: u32) -> (r: String)
    ensures
        r@ == ".gitissues"@ + "/issues/"@ + padded(id) + "/description.md"@,
{
    issue_dir(id).concat("/description.md")
}

pub fn issue_attachments_dir(id: u32) -> (r: String)
    ensures
        r@ == ".gitissues"@ + "/issues/"@ + padded(id) + "/attachments"@,
{
    issue_dir(id).concat("/attachments")
}

pub fn issue_tmp_show_dir(id: u32) -> (r: String)
    ensures
        r@ == ".gitissues"@ + "/.tmp/show-"@ + decimal(id as nat),
{
    let d = u32_text(id);
    gitissues_base().concat("/.tmp/show-").concat(d.as_str())
}

/// The file that holds the ids of the last listing.
pub fn cache_path() -> (r: String)
    ensures
        r@ == ".gitissues"@ + "/.tmp/cache.txt"@,
{
    gitissues_base().concat("/.tmp/cache.txt")
}

pub fn issue_exports_dir() -> (r: String)
    ensures
        r@ == ".gitissues"@ + "/exports"@,
{
    gitissues_base().concat("/exports")
}

proof fn lemma_digit(d: nat)
    requires
        d < 10,
    ensures
        is_digit(digit(d)),
        ((digit(d) as u32) - ('0' as u32)) as nat == d,
        digit(d) != '+',
{
}

/// The decimal notation of a number reads back as that number.
pub proof fn lemma_decimal_reads_back(n: nat)
    ensures
        decimal(n).len() > 0,
        all_digits(decimal(n)),
        digits_value(decimal(n)) == n,
        decimal(n)[0] != '+',
    decreases n,
{
    if n < 10 {
        lemma_digit(n);
        let s = decimal(n);
        assert(s.drop_last() =~= Seq::<char>::empty());
        assert(s.last() == digit(n));
        assert(digits_value(s) == digits_value(s.drop_last()) * 10 + ((s.last() as u32) - ('0' as u32)) as nat);
    } else {
        lemma_decimal_reads_back(n / 10);
        lemma_digit(n % 10);
        let s = decimal(n);
        let p = decimal(n / 10);
        assert(s.drop_last() =~= p);
        assert(s[0] == p[0]);
        assert forall|i: int| 0 <= i < s.len() implies is_digit(#[trigger] s[i]) by {
            if i < p.len() {
                assert(s[i] == p[i]);
            }
        }
        assert(s.last() == digit(n % 10));
        assert(digits_value(s) == digits_value(p) * 10 + ((s.last() as u32) - ('0' as u32)) as nat);
        assert(n == (n / 10) * 10 + n % 10) by (nonlinear_arith);
    }
}

/// `parse_u32` reads the decimal notation of every `u32`.
pub proof fn lemma_parse_decimal(k: u32)
    ensures
        parse_u32(decimal(k as nat)) == Some(k),
{
    lemma_decimal_reads_back(k as nat);
}

/// A commit message from its template: `{action}`, then `{id}`, then
/// `{title}` replaced in turn.
pub open spec fn commit_text(template: Seq<char>, action: Seq<char>, id: u32, title: Seq<char>) -> Seq<char> {
    crate::text::replace_all(
        crate::text::replace_all(crate::text::replace_all(template, "{action}"@, action), "{id}"@, decimal(id as nat)),
        "{title}"@,
        title,
    )
}

/// The message of a commit about issue `id`, from the configured template.
pub fn commit_message(template: &str, action: &str, id: u32, title: &str) -> (r: String)
    ensures
        r@ == commit_text(template@, action@, id, title@),
{
    proof {
        reveal_strlit("{action}");
        reveal_strlit("{id}");
        reveal_strlit("{title}");
    }
    let a = crate::text::replace_text(template, "{action}", action);
    let d = u32_text(id);
    let b = crate::text::replace_text(a.as_str(), "{id}", d.as_str());
    crate::text::replace_text(b.as_str(), "{title}", title)
}

} // verus!
