//! The expression parsers: filters, sort keys and relationship links, each
//! read from one command-line token.
use crate::model::{
    parse_u32, read_u32, Filter, Operator, Order, RelationshipLink, Sorting,
};
use crate::text::{
    chars_of, lower_of, pieces, split_commas, string_of, to_lower, trim,
    trimmed,
};
use vstd::prelude::*;

verus! {

/// The position of the first `c` in `s`, or -1.
pub open spec fn first_index(s: Seq<char>, c: char) -> int
    decreases s.len(),
{
    if s.len() == 0 {
        -1
    } else {
        let i = first_index(s.drop_last(), c);
        if i >= 0 {
            i
        } else if s.last() == c {
            s.len() - 1
        } else {
            -1
        }
    }
}

/// `s` cut at its first `c`: what stands before it and what stands after it.
pub open spec fn cut(s: Seq<char>, c: char) -> Option<(Seq<char>, Seq<char>)> {
    let i = first_index(s, c);
    if i >= 0 {
        Some((s.subrange(0, i), s.subrange(i + 1, s.len() as int)))
    } else {
        None
    }
}

proof fn lemma_first_index(s: Seq<char>, c: char)
    ensures
        -1 <= first_index(s, c) < s.len(),
        first_index(s, c) >= 0 ==> s[first_index(s, c)] == c,
        forall|j: int|
            0 <= j < s.len() && (first_index(s, c) < 0 || j < first_index(s, c)) ==> #[trigger] s[j]
                != c,
    decreases s.len(),
{
    if s.len() > 0 {
        lemma_first_index(s.drop_last(), c);
        assert forall|j: int| 0 <= j < s.len() - 1 implies s.drop_last()[j] == #[trigger] s[j] by {}
    }
}

/// Cuts `s` at its first `c`.
pub fn split_once(s: &Vec<char>, c: char) -> (r: Option<(Vec<char>, Vec<char>)>)
    ensures
        match r {
            Some((a, b)) => cut(s@, c) == Some((a@, b@)),
            None => cut(s@, c) is None,
        },
{
    let n = s.len();
    let mut i: usize = 0;
    while i < n && s[i] != c
        invariant
            i <= n == s@.len(),
            forall|j: int| 0 <= j < i ==> s@[j] != c,
        decreases n - i,
    {
        i = i + 1;
    }
    proof {
        lemma_first_index(s@, c);
    }
    if i == n {
        return None;
    }
    assert(first_index(s@, c) == i);
    let mut a: Vec<char> = Vec::new();
    let mut k: usize = 0;
    while k < i
        invariant
            k <= i < n == s@.len(),
            a@ == s@.subrange(0, k as int),
        decreases i - k,
    {
        a.push(s[k]);
        k = k + 1;
        assert(a@ =~= s@.subrange(0, k as int));
    }
    let mut b: Vec<char> = Vec::new();
    let mut k: usize = i + 1;
    while k < n
        invariant
            i < k <= n == s@.len(),
            b@ == s@.subrange(i + 1, k as int),
        decreases n - k,
    {
        b.push(s[k]);
        k = k + 1;
        assert(b@ =~= s@.subrange(i + 1, k as int));
    }
    Some((a, b))
}

/// The field, operator and value of a filter token. The operator is the first
/// of `=`, `>`, `<` that occurs in it, and the token is cut at its first occurrence.
pub open spec fn filter_parts(s: Seq<char>) -> Option<(Seq<char>, Operator, Seq<char>)> {
    match cut(s, '=') {
        Some((f, v)) => Some((f, Operator::Eq, v)),
        None => match cut(s, '>') {
            Some((f, v)) => Some((f, Operator::Gt, v)),
            None => match cut(s, '<') {
                Some((f, v)) => Some((f, Operator::Lt, v)),
                None => None,
            },
        },
    }
}

impl Filter {
    /// Reads `<field>=<value>`, `<field>><value>` or `<field><<value>`.
    pub fn from_str(s: &str) -> (r: Result<Filter, String>)
        ensures
            match r {
                Ok(f) => filter_parts(s@) == Some((f.field@, f.operator, f.value@)),
                Err(_) => filter_parts(s@) is None,
            },
    {
        let cs = chars_of(s);
        let (op, parts) = match split_once(&cs, '=') {
            Some(p) => (Operator::Eq, p),
            None => match split_once(&cs, '>') {
                Some(p) => (Operator::Gt, p),
                None => match split_once(&cs, '<') {
                    Some(p) => (Operator::Lt, p),
                    None => {
                        return Err(String::from_str("expected operator: =, >, or <"));
                    },
                },
            },
        };
        let (field, value) = parts;
        Ok(Filter { field: string_of(&field), operator: op, value: string_of(&value) })
    }
}

/// The field and direction of a sort token, the direction named in either case.
pub open spec fn sorting_parts(s: Seq<char>) -> Option<(Seq<char>, Order)> {
    match cut(s, '=') {
        Some((f, o)) => if lower_of(o) == "asc"@ {
            Some((f, Order::Asc))
        } else if lower_of(o) == "desc"@ {
            Some((f, Order::Desc))
        } else {
            None
        },
        None => None,
    }
}

impl Sorting {
    /// Reads `<field>=asc` or `<field>=desc`.
    pub fn from_str(s: &str) -> (r: Result<Sorting, String>)
        ensures
            match r {
                Ok(x) => sorting_parts(s@) == Some((x.field@, x.order)),
                Err(_) => sorting_parts(s@) is None,
            },
    {
        let cs = chars_of(s);
        let (field, order) = match split_once(&cs, '=') {
            Some(p) => p,
            None => {
                return Err(String::from_str("expected format: <field>=asc|desc"));
            },
        };
        let order_text = string_of(&order);
        let low = to_lower(order_text.as_str());
        let ord = if crate::model::same_text(low.as_str(), "asc") {
            Order::Asc
        } else if crate::model::same_text(low.as_str(), "desc") {
            Order::Desc
        } else {
            return Err(String::from_str("Unknown order, expected 'asc' or 'desc'"));
        };
        Ok(Sorting { field: string_of(&field), order: ord })
    }
}

/// Whether each of `ps` names an id once trimmed.
pub open spec fn all_ids(ps: Seq<Seq<char>>) -> bool {
    forall|i: int| 0 <= i < ps.len() ==> (#[trigger] parse_u32(trimmed(ps[i]))) is Some
}

/// The ids named by `ps`, each trimmed.
pub open spec fn ids_of(ps: Seq<Seq<char>>) -> Seq<u32> {
    ps.map_values(|p: Seq<char>| parse_u32(trimmed(p))->0)
}

/// A link read from `s`: the relationship before the first `=`, and after it
/// a comma separated list of ids, each of which reads as one once trimmed.
pub open spec fn link_token_ok(s: Seq<char>, l: RelationshipLink) -> bool {
    &&& cut(s, '=') is Some
    &&& l.relationship@ == (cut(s, '=')->0).0
    &&& all_ids(pieces((cut(s, '=')->0).1))
    &&& l.target_ids@ == ids_of(pieces((cut(s, '=')->0).1))
}

/// `msg` quotes one of the comma separated pieces of `ids` that does not read as an id.
pub open spec fn bad_id_quoted(ids: Seq<char>, msg: Seq<char>) -> bool {
    exists|i: int|
        0 <= i < pieces(ids).len() && parse_u32(trimmed(#[trigger] pieces(ids)[i])) is None && msg
            == "invalid target id: "@ + pieces(ids)[i]
}

impl RelationshipLink {
    /// Reads `<relationship>=<id>[,<id>...]`. The error for a bad id quotes it.
    pub fn from_str(s: &str) -> (r: Result<RelationshipLink, String>)
        ensures
            cut(s@, '=') is None ==> r is Err,
            r is Ok ==> link_token_ok(s@, r->Ok_0),
            cut(s@, '=') is Some && r is Err ==> bad_id_quoted(
                (cut(s@, '=')->0).1,
                r->Err_0@,
            ),
    {
        let cs = chars_of(s);
        let (name, ids) = match split_once(&cs, '=') {
            Some(p) => p,
            None => {
                return Err(String::from_str("expected format: <relationship>=<target_ids>"));
            },
        };
        let parts = split_commas(&ids);
        let mut targets: Vec<u32> = Vec::new();
        let mut i: usize = 0;
        while i < parts.len()
            invariant
                i <= parts@.len() == pieces(ids@).len(),
                cut(s@, '=') == Some((name@, ids@)),
                forall|x: int| 0 <= x < parts@.len() ==> (#[trigger] parts@[x])@ == pieces(ids@)[x],
                targets@.len() == i,
                forall|x: int|
                    0 <= x < i ==> (#[trigger] parse_u32(trimmed(pieces(ids@)[x]))) is Some
                        && targets@[x] == parse_u32(trimmed(pieces(ids@)[x]))->0,
            decreases parts@.len() - i,
        {
            let t = trim(&parts[i]);
            let ts = string_of(&t);
            match read_u32(ts.as_str()) {
                Some(n) => targets.push(n),
                None => {
                    let raw = string_of(&parts[i]);
                    let ghost e = "invalid target id: "@ + raw@;
                    assert(0 <= i < pieces(ids@).len() && parse_u32(trimmed(pieces(ids@)[i as int]))
                        is None && e == "invalid target id: "@ + pieces(ids@)[i as int]);
                    let msg = String::from_str("invalid target id: ").concat(raw.as_str());
                    assert(msg@ == e);
                    assert(bad_id_quoted(ids@, msg@));
                    return Err(msg);
                },
            }
            i = i + 1;
        }
        assert(targets@ =~= ids_of(pieces(ids@)));
        Ok(RelationshipLink { relationship: string_of(&name), target_ids: targets })
    }
}

} // verus!
