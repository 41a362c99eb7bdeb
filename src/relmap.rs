//! The relationships of an issue: an insertion-ordered map from relationship
//! type to the ids of the linked issues, held in an `IndexMap`.
use indexmap::IndexMap;
use vstd::prelude::*;

verus! {

#[verifier::external_type_specification]
#[verifier::external_body]
#[verifier::reject_recursive_types(K)]
#[verifier::reject_recursive_types(V)]
#[verifier::reject_recursive_types(S)]
pub struct ExIndexMap<K, V, S>(IndexMap<K, V, S>);

pub type RelMap = IndexMap<String, Vec<u32>>;

/// The entries of a relationship map, in insertion order.
pub uninterp spec fn rel_entries(m: RelMap) -> Seq<(Seq<char>, Seq<u32>)>;

/// The position of the first entry with key `k`, or -1 when there is none.
pub open spec fn find_key(e: Seq<(Seq<char>, Seq<u32>)>, k: Seq<char>) -> int
    decreases e.len(),
{
    if e.len() == 0 {
        -1
    } else {
        let i = find_key(e.drop_last(), k);
        if i >= 0 {
            i
        } else if e.last().0 == k {
            e.len() - 1
        } else {
            -1
        }
    }
}

/// The ids stored under `k`, if `k` is present.
pub open spec fn lookup(e: Seq<(Seq<char>, Seq<u32>)>, k: Seq<char>) -> Option<Seq<u32>> {
    let i = find_key(e, k);
    if i >= 0 {
        Some(e[i].1)
    } else {
        None
    }
}

/// The entries after storing `v` under `k`: in place when `k` is present, last otherwise.
pub open spec fn store(e: Seq<(Seq<char>, Seq<u32>)>, k: Seq<char>, v: Seq<u32>) -> Seq<
    (Seq<char>, Seq<u32>),
> {
    let i = find_key(e, k);
    if i >= 0 {
        e.update(i, (k, v))
    } else {
        e.push((k, v))
    }
}

pub proof fn lemma_find_key(e: Seq<(Seq<char>, Seq<u32>)>, k: Seq<char>)
    ensures
        -1 <= find_key(e, k) < e.len(),
        find_key(e, k) >= 0 ==> e[find_key(e, k)].0 == k,
        find_key(e, k) < 0 ==> forall|j: int| 0 <= j < e.len() ==> (#[trigger] e[j]).0 != k,
    decreases e.len(),
{
    if e.len() > 0 {
        lemma_find_key(e.drop_last(), k);
        if find_key(e.drop_last(), k) < 0 {
            assert forall|j: int| 0 <= j < e.len() - 1 implies (#[trigger] e[j]).0 != k by {
                assert(e.drop_last()[j] == e[j]);
            }
        }
    }
}

/// Relies on `IndexMap::new`: a new map holds no entries.
#[verifier::external_body]
pub fn rel_new() -> (r: RelMap)
    ensures
        rel_entries(r) == Seq::<(Seq<char>, Seq<u32>)>::empty(),
{
    IndexMap::new()
}

/// Relies on `IndexMap::get`: the value stored under the key, if any.
#[verifier::external_body]
pub fn rel_get<'a>(m: &'a RelMap, k: &str) -> (r: Option<&'a Vec<u32>>)
    ensures
        r is Some <==> lookup(rel_entries(*m), k@) is Some,
        r is Some ==> r->0@ == lookup(rel_entries(*m), k@)->0,
{
    m.get(k)
}

/// Relies on `IndexMap::insert`: an existing key keeps its place and gets the
/// new value; a new key is added last.
#[verifier::external_body]
pub fn rel_insert(m: &mut RelMap, k: String, v: Vec<u32>)
    ensures
        rel_entries(*final(m)) == store(rel_entries(*old(m)), k@, v@),
{
    m.insert(k, v);
}

proof fn lemma_find_key_same_keys(a: Seq<(Seq<char>, Seq<u32>)>, b: Seq<(Seq<char>, Seq<u32>)>, k: Seq<char>)
    requires
        a.len() == b.len(),
        forall|j: int| 0 <= j < a.len() ==> (#[trigger] a[j]).0 == b[j].0,
    ensures
        find_key(a, k) == find_key(b, k),
    decreases a.len(),
{
    if a.len() > 0 {
        lemma_find_key_same_keys(a.drop_last(), b.drop_last(), k);
        assert(a.last().0 == b.last().0);
    }
}

/// After storing `v` under `k`, `k` holds `v` and every other key holds what it held.
pub proof fn lemma_lookup_store(e: Seq<(Seq<char>, Seq<u32>)>, k: Seq<char>, v: Seq<u32>, k2: Seq<char>)
    ensures
        lookup(store(e, k, v), k2) == if k2 == k {
            Some(v)
        } else {
            lookup(e, k2)
        },
{
    lemma_find_key(e, k);
    lemma_find_key(e, k2);
    let i = find_key(e, k);
    let t = store(e, k, v);
    if i >= 0 {
        lemma_find_key_same_keys(t, e, k2);
        if k2 != k {
            if find_key(e, k2) >= 0 {
                assert(find_key(e, k2) != i);
            }
        }
    } else {
        assert(t.drop_last() =~= e);
        lemma_find_key(t, k2);
    }
}

} // verus!
