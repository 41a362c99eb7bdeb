//! Text primitives of the query language: characters of a string, comma
//! separated lists, whitespace trimming, case folding and wildcard matching.
use vstd::prelude::*;

verus! {

/// The characters with the Unicode White_Space property.
pub open spec fn white_space(c: char) -> bool {
    ('\u{9}' <= c && c <= '\u{d}') || c == ' ' || c == '\u{85}' || c == '\u{a0}' || c == '\u{1680}'
        || ('\u{2000}' <= c && c <= '\u{200a}') || c == '\u{2028}' || c == '\u{2029}' || c
        == '\u{202f}' || c == '\u{205f}' || c == '\u{3000}'
}

/// What `str::to_lowercase` returns for a string.
pub uninterp spec fn lower_of(s: Seq<char>) -> Seq<char>;

/// Whether the character has the Unicode White_Space property, as
/// `char::is_whitespace` decides.
fn is_white_space(c: char) -> (r: bool)
    ensures
        r == white_space(c),
{
    ('\u{9}' <= c && c <= '\u{d}') || c == ' ' || c == '\u{85}' || c == '\u{a0}' || c == '\u{1680}'
        || ('\u{2000}' <= c && c <= '\u{200a}') || c == '\u{2028}' || c == '\u{2029}' || c
        == '\u{202f}' || c == '\u{205f}' || c == '\u{3000}'
}

/// Relies on `str::to_lowercase`: the lowercase mapping of the whole string,
/// which depends on its characters alone.
#[verifier::external_body]
pub fn to_lower(s: &str) -> (r: String)
    ensures
        r@ == lower_of(s@),
{
    s.to_lowercase()
}

/// Relies on `String`'s `FromIterator<char>`: the string holds the characters in order.
#[verifier::external_body]
pub fn string_of(v: &Vec<char>) -> (r: String)
    ensures
        r@ == v@,
{
    v.iter().collect()
}

/// The characters of a string, in order.
pub fn chars_of(s: &str) -> (r: Vec<char>)
    ensures
        r@ == s@,
{
    let mut r: Vec<char> = Vec::new();
    for c in it: s.chars()
        invariant
            r@ == it.seq().subrange(0, it.index() as int),
    {
        r.push(c);
    }
    assert(r@ =~= s@);
    r
}

/// `s` without the leading and trailing characters of `white_space`.
pub open spec fn trim_start(s: Seq<char>) -> Seq<char>
    decreases s.len(),
{
    if s.len() > 0 && white_space(s[0]) {
        trim_start(s.drop_first())
    } else {
        s
    }
}

pub open spec fn trim_end(s: Seq<char>) -> Seq<char>
    decreases s.len(),
{
    if s.len() > 0 && white_space(s.last()) {
        trim_end(s.drop_last())
    } else {
        s
    }
}

pub open spec fn trimmed(s: Seq<char>) -> Seq<char> {
    trim_end(trim_start(s))
}

/// The normal form in which values and patterns are compared:
/// lowercase, then without surrounding white space.
pub open spec fn normal(s: Seq<char>) -> Seq<char> {
    trimmed(lower_of(s))
}

proof fn lemma_trim_start_skip(s: Seq<char>, i: int)
    requires
        0 <= i <= s.len(),
        forall|k: int| 0 <= k < i ==> white_space(#[trigger] s[k]),
    ensures
        trim_start(s) == trim_start(s.subrange(i, s.len() as int)),
    decreases i,
{
    if i > 0 {
        assert(s.drop_first().subrange(i - 1, s.drop_first().len() as int) =~= s.subrange(
            i,
            s.len() as int,
        ));
        lemma_trim_start_skip(s.drop_first(), i - 1);
    } else {
        assert(s.subrange(0, s.len() as int) =~= s);
    }
}

proof fn lemma_trim_end_skip(s: Seq<char>, j: int)
    requires
        0 <= j <= s.len(),
        forall|k: int| j <= k < s.len() ==> white_space(#[trigger] s[k]),
    ensures
        trim_end(s) == trim_end(s.subrange(0, j)),
    decreases s.len() - j,
{
    if j < s.len() {
        assert(s.drop_last().subrange(0, j) =~= s.subrange(0, j));
        lemma_trim_end_skip(s.drop_last(), j);
    } else {
        assert(s.subrange(0, j) =~= s);
    }
}

/// `s` without surrounding white space.
pub fn trim(s: &Vec<char>) -> (r: Vec<char>)
    ensures
        r@ == trimmed(s@),
{
    let n = s.len();
    let mut i: usize = 0;
    while i < n && is_white_space(s[i])
        invariant
            i <= n == s@.len(),
            forall|k: int| 0 <= k < i ==> white_space(#[trigger] s@[k]),
        decreases n - i,
    {
        i = i + 1;
    }
    proof {
        lemma_trim_start_skip(s@, i as int);
        if i < n {
            assert(!white_space(s@[i as int]));
        }
    }
    let ghost rest = s@.subrange(i as int, n as int);
    assert(trim_start(rest) == rest);
    let mut j: usize = n;
    while j > i && is_white_space(s[j - 1])
        invariant
            i <= j <= n == s@.len(),
            forall|k: int| j <= k < n ==> white_space(#[trigger] s@[k]),
        decreases j,
    {
        j = j - 1;
    }
    let mut r: Vec<char> = Vec::new();
    let mut k: usize = i;
    while k < j
        invariant
            i <= k <= j <= n == s@.len(),
            r@ == s@.subrange(i as int, k as int),
        decreases j - k,
    {
        r.push(s[k]);
        k = k + 1;
        assert(r@ =~= s@.subrange(i as int, k as int));
    }
    proof {
        assert forall|x: int| (j - i) <= x < rest.len() implies white_space(#[trigger] rest[x]) by {
            assert(rest[x] == s@[i + x]);
        }
        lemma_trim_end_skip(rest, j - i);
        assert(rest.subrange(0, j - i) =~= r@);
        if j > i {
            assert(r@.last() == s@[j - 1]);
        }
    }
    r
}

/// The normal form of a string: its lowercase, trimmed.
pub fn normalize(s: &str) -> (r: Vec<char>)
    ensures
        r@ == normal(s@),
{
    let low = to_lower(s);
    let cs = chars_of(low.as_str());
    trim(&cs)
}

/// The pieces of `s` between commas, in order; there is always at least one.
pub open spec fn pieces(s: Seq<char>) -> Seq<Seq<char>>
    decreases s.len(),
{
    if s.len() == 0 {
        seq![Seq::<char>::empty()]
    } else {
        let p = pieces(s.drop_last());
        if s.last() == ',' {
            p.push(Seq::<char>::empty())
        } else {
            p.update(p.len() - 1, p.last().push(s.last()))
        }
    }
}

pub proof fn lemma_pieces_nonempty(s: Seq<char>)
    ensures
        pieces(s).len() >= 1,
        !s.contains(',') ==> pieces(s) == seq![s],
    decreases s.len(),
{
    if s.len() > 0 {
        lemma_pieces_nonempty(s.drop_last());
        if !s.contains(',') {
            assert(!s.drop_last().contains(',')) by {
                if s.drop_last().contains(',') {
                    let k = choose|k: int| 0 <= k < s.drop_last().len() && s.drop_last()[k] == ',';
                    assert(s[k] == ',');
                }
            }
            assert(s.last() == s[s.len() - 1]);
            assert(s.drop_last().push(s.last()) =~= s);
            assert(pieces(s) =~= seq![s]);
        }
    } else {
        assert(s =~= Seq::<char>::empty());
    }
}

/// Splits `s` at each comma.
pub fn split_commas(s: &Vec<char>) -> (r: Vec<Vec<char>>)
    ensures
        r@.len() == pieces(s@).len(),
        forall|i: int| 0 <= i < r@.len() ==> (#[trigger] r@[i])@ == pieces(s@)[i],
{
    let mut r: Vec<Vec<char>> = Vec::new();
    let mut cur: Vec<char> = Vec::new();
    let mut k: usize = 0;
    while k < s.len()
        invariant
            k <= s@.len(),
            r@.len() + 1 == pieces(s@.subrange(0, k as int)).len(),
            forall|i: int| 0 <= i < r@.len() ==> (#[trigger] r@[i])@ == pieces(
                s@.subrange(0, k as int),
            )[i],
            cur@ == pieces(s@.subrange(0, k as int)).last(),
        decreases s@.len() - k,
    {
        let c = s[k];
        proof {
            let t = s@.subrange(0, k as int + 1);
            assert(t.drop_last() =~= s@.subrange(0, k as int));
            assert(t.last() == c);
            lemma_pieces_nonempty(s@.subrange(0, k as int));
        }
        if c == ',' {
            let mut done: Vec<char> = Vec::new();
            std::mem::swap(&mut cur, &mut done);
            r.push(done);
        } else {
            cur.push(c);
        }
        k = k + 1;
    }
    assert(s@.subrange(0, k as int) =~= s@);
    r.push(cur);
    r
}

/// Whether `v` matches the wildcard pattern `p`, where `*` stands for any run
/// of characters (an empty one too) and every other character for itself.
pub open spec fn glob(p: Seq<char>, v: Seq<char>) -> bool
    decreases p.len() + v.len(),
{
    if p.len() == 0 {
        v.len() == 0
    } else if p[0] == '*' {
        glob(p.drop_first(), v) || (v.len() > 0 && glob(p, v.drop_first()))
    } else {
        v.len() > 0 && p[0] == v[0] && glob(p.drop_first(), v.drop_first())
    }
}

/// Every string matches itself as a pattern.
pub proof fn lemma_glob_reflexive(x: Seq<char>)
    ensures
        glob(x, x),
    decreases x.len(),
{
    if x.len() > 0 {
        lemma_glob_reflexive(x.drop_first());
        if x[0] == '*' {
            assert(glob(x.drop_first(), x.drop_first()));
            assert(glob(x, x.drop_first()));
        }
    }
}

proof fn lemma_glob_step(p: Seq<char>, v: Seq<char>, i: int, j: int)
    requires
        0 <= i < p.len(),
        0 <= j <= v.len(),
    ensures
        glob(p.subrange(i, p.len() as int), v.subrange(j, v.len() as int)) == if p[i] == '*' {
            glob(p.subrange(i + 1, p.len() as int), v.subrange(j, v.len() as int)) || (j < v.len()
                && glob(p.subrange(i, p.len() as int), v.subrange(j + 1, v.len() as int)))
        } else {
            j < v.len() && p[i] == v[j] && glob(
                p.subrange(i + 1, p.len() as int),
                v.subrange(j + 1, v.len() as int),
            )
        },
{
    let ps = p.subrange(i, p.len() as int);
    let vs = v.subrange(j, v.len() as int);
    assert(ps.drop_first() =~= p.subrange(i + 1, p.len() as int));
    if j < v.len() {
        assert(vs.drop_first() =~= v.subrange(j + 1, v.len() as int));
        assert(vs[0] == v[j]);
    }
    assert(ps[0] == p[i]);
}

/// Wildcard match of a whole value against a whole pattern.
pub fn glob_match(p: &Vec<char>, v: &Vec<char>) -> (r: bool)
    ensures
        r == glob(p@, v@),
{
    let m = p.len();
    let n = v.len();
    // next[j] == glob(p[i+1..], v[j..]) for the row below the one being filled
    let mut next: Vec<bool> = Vec::new();
    let mut j: usize = 0;
    while j < n
        invariant
            j <= n,
            n == v@.len(),
            m == p@.len(),
            next@.len() == j,
            forall|x: int| 0 <= x < j ==> #[trigger] next@[x] == glob(
                p@.subrange(m as int, m as int),
                v@.subrange(x, n as int),
            ),
        decreases n - j,
    {
        next.push(false);
        proof {
            let e = p@.subrange(m as int, m as int);
            assert(e.len() == 0);
            assert(v@.subrange(j as int, n as int).len() == n - j);
        }
        j = j + 1;
    }
    next.push(true);
    assert(v@.subrange(n as int, n as int).len() == 0);
    let mut i: usize = m;
    while i > 0
        invariant
            i <= m == p@.len(),
            n == v@.len(),
            next@.len() == n + 1,
            forall|x: int| 0 <= x <= n ==> #[trigger] next@[x] == glob(
                p@.subrange(i as int, m as int),
                v@.subrange(x, n as int),
            ),
        decreases i,
    {
        let pc = p[i - 1];
        let mut cur: Vec<bool> = Vec::new();
        let mut k: usize = 0;
        while k < n
            invariant
                k <= n,
                cur@.len() == k,
                next@.len() == n + 1,
            decreases n - k,
        {
            cur.push(false);
            k = k + 1;
        }
        cur.push(false);
        let mut jj: usize = cur.len();
        while jj > 0
            invariant
                0 < i <= m == p@.len(),
                pc == p@[i - 1],
                n == v@.len(),
                jj <= n + 1,
                next@.len() == n + 1,
                cur@.len() == n + 1,
                forall|x: int| 0 <= x <= n ==> #[trigger] next@[x] == glob(
                    p@.subrange(i as int, m as int),
                    v@.subrange(x, n as int),
                ),
                forall|x: int| jj <= x <= n ==> #[trigger] cur@[x] == glob(
                    p@.subrange(i - 1, m as int),
                    v@.subrange(x, n as int),
                ),
            decreases jj,
        {
            let x = jj - 1;
            proof {
                lemma_glob_step(p@, v@, i - 1, x as int);
            }
            let b = if pc == '*' {
                next[x] || (x < n && cur[x + 1])
            } else {
                x < n && pc == v[x] && next[x + 1]
            };
            cur.set(x, b);
            jj = x;
        }
        next = cur;
        i = i - 1;
    }
    assert(p@.subrange(0, m as int) =~= p@);
    assert(v@.subrange(0, n as int) =~= v@);
    next[0]
}

/// Whether `value` matches one of the comma separated patterns of `pattern`,
/// both compared in their normal form.
pub open spec fn strings_match(value: Seq<char>, pattern: Seq<char>) -> bool {
    exists|i: int| 0 <= i < pieces(pattern).len() && glob(normal(pieces(pattern)[i]), normal(value))
}

/// Matches `value` against a comma separated list of wildcard patterns,
/// without regard to case or surrounding white space.
pub fn do_strings_match(value: &str, pattern: &str) -> (r: bool)
    ensures
        r == strings_match(value@, pattern@),
{
    let nv = normalize(value);
    let pcs = chars_of(pattern);
    let parts = split_commas(&pcs);
    let mut i: usize = 0;
    while i < parts.len()
        invariant
            i <= parts@.len() == pieces(pattern@).len(),
            nv@ == normal(value@),
            forall|x: int| 0 <= x < parts@.len() ==> (#[trigger] parts@[x])@ == pieces(pattern@)[x],
            forall|x: int| 0 <= x < i ==> !glob(normal(#[trigger] pieces(pattern@)[x]), normal(value@)),
        decreases parts@.len() - i,
    {
        let ps = string_of(&parts[i]);
        let np = normalize(ps.as_str());
        if glob_match(&np, &nv) {
            return true;
        }
        i = i + 1;
    }
    false
}

/// A value without commas matches itself as a pattern.
pub proof fn lemma_match_reflexive(v: Seq<char>)
    requires
        !v.contains(','),
    ensures
        strings_match(v, v),
{
    lemma_pieces_nonempty(v);
    lemma_glob_reflexive(normal(v));
    assert(pieces(v)[0] == v);
}

/// A pattern without commas matches every value with the same normal form:
/// matching ignores case and surrounding white space.
pub proof fn lemma_match_same_normal(v: Seq<char>, w: Seq<char>)
    requires
        !w.contains(','),
        normal(w) == normal(v),
    ensures
        strings_match(v, w),
{
    lemma_pieces_nonempty(w);
    lemma_glob_reflexive(normal(v));
    assert(pieces(w)[0] == w);
}

/// Cutting at a comma splits the pieces in two.
pub proof fn lemma_pieces_concat(a: Seq<char>, b: Seq<char>)
    ensures
        pieces(a + seq![','] + b) == pieces(a) + pieces(b),
    decreases b.len(),
{
    if b.len() == 0 {
        assert(a + seq![','] + b =~= a.push(','));
        assert((a + seq![','] + b).drop_last() =~= a);
        lemma_pieces_nonempty(a);
        assert(pieces(a).push(Seq::<char>::empty()) =~= pieces(a) + pieces(b));
    } else {
        let s = a + seq![','] + b;
        let b1 = b.drop_last();
        assert(s.drop_last() =~= a + seq![','] + b1);
        assert(s.last() == b.last());
        lemma_pieces_concat(a, b1);
        lemma_pieces_nonempty(b1);
        lemma_pieces_nonempty(a);
        assert(b1.push(b.last()) =~= b);
        let p = pieces(a) + pieces(b1);
        if b.last() == ',' {
            assert(p.push(Seq::<char>::empty()) =~= pieces(a) + pieces(b1).push(Seq::<char>::empty()));
        } else {
            let q = pieces(b1);
            assert(p.update(p.len() - 1, p.last().push(b.last())) =~= pieces(a) + q.update(
                q.len() - 1,
                q.last().push(b.last()),
            ));
        }
    }
}

/// A pattern `a,b` matches a value exactly when `a` or `b` does.
pub proof fn lemma_match_or(v: Seq<char>, a: Seq<char>, b: Seq<char>)
    ensures
        strings_match(v, a + seq![','] + b) == (strings_match(v, a) || strings_match(v, b)),
{
    lemma_pieces_concat(a, b);
    let pa = pieces(a);
    let pb = pieces(b);
    let p = pa + pb;
    if strings_match(v, a + seq![','] + b) {
        let i = choose|i: int| 0 <= i < p.len() && glob(normal(p[i]), normal(v));
        if i < pa.len() {
            assert(p[i] == pa[i]);
        } else {
            assert(p[i] == pb[i - pa.len()]);
        }
    }
    if strings_match(v, a) {
        let i = choose|i: int| 0 <= i < pa.len() && glob(normal(pa[i]), normal(v));
        assert(p[i] == pa[i]);
    }
    if strings_match(v, b) {
        let i = choose|i: int| 0 <= i < pb.len() && glob(normal(pb[i]), normal(v));
        assert(p[pa.len() + i] == pb[i]);
    }
}

/// `s` with each occurrence of `pat` replaced by `rep`, scanning from the
/// left; occurrences do not overlap.
pub open spec fn replace_all(s: Seq<char>, pat: Seq<char>, rep: Seq<char>) -> Seq<char>
    decreases s.len(),
{
    if pat.len() == 0 || s.len() < pat.len() {
        s
    } else if s.subrange(0, pat.len() as int) == pat {
        rep + replace_all(s.subrange(pat.len() as int, s.len() as int), pat, rep)
    } else {
        seq![s[0]] + replace_all(s.drop_first(), pat, rep)
    }
}

fn starts_at(s: &Vec<char>, i: usize, pat: &Vec<char>) -> (r: bool)
    requires
        i <= s@.len(),
    ensures
        r == (s@.len() - i >= pat@.len() && s@.subrange(i as int, i + pat@.len()) == pat@),
{
    if s.len() - i < pat.len() {
        return false;
    }
    let mut k: usize = 0;
    while k < pat.len()
        invariant
            k <= pat@.len(),
            i + pat@.len() <= s@.len(),
            s@.len() == s.len(),
            forall|j: int| 0 <= j < k ==> s@[i + j] == pat@[j],
        decreases pat@.len() - k,
    {
        if s[i + k] != pat[k] {
            assert(s@.subrange(i as int, i + pat@.len())[k as int] != pat@[k as int]);
            return false;
        }
        k = k + 1;
    }
    assert(s@.subrange(i as int, i + pat@.len()) =~= pat@);
    true
}

/// Replaces each occurrence of `pat` in `s` by `rep`.
pub fn replace_text(s: &str, pat: &str, rep: &str) -> (r: String)
    requires
        pat@.len() > 0,
    ensures
        r@ == replace_all(s@, pat@, rep@),
{
    let cs = chars_of(s);
    let ps = chars_of(pat);
    let rs = chars_of(rep);
    let n = cs.len();
    let mut out: Vec<char> = Vec::new();
    let mut i: usize = 0;
    assert(cs@.subrange(0, n as int) =~= cs@);
    while i < n
        invariant
            i <= n == cs@.len(),
            cs@ == s@,
            ps@ == pat@,
            rs@ == rep@,
            ps@.len() > 0,
            out@ + replace_all(cs@.subrange(i as int, n as int), ps@, rs@) == replace_all(
                cs@,
                ps@,
                rs@,
            ),
        decreases n - i,
    {
        let ghost rest = cs@.subrange(i as int, n as int);
        let ghost before = out@;
        if starts_at(&cs, i, &ps) {
            assert(rest.subrange(0, ps@.len() as int) =~= cs@.subrange(i as int, i + ps@.len()));
            assert(rest.subrange(ps@.len() as int, rest.len() as int) =~= cs@.subrange(
                i + ps@.len(),
                n as int,
            ));
            let mut k: usize = 0;
            while k < rs.len()
                invariant
                    k <= rs@.len(),
                    out@ == before + rs@.subrange(0, k as int),
                decreases rs@.len() - k,
            {
                out.push(rs[k]);
                k = k + 1;
                assert(out@ =~= before + rs@.subrange(0, k as int));
            }
            assert(rs@.subrange(0, k as int) =~= rs@);
            assert(before + (rs@ + replace_all(cs@.subrange(i + ps@.len(), n as int), ps@, rs@))
                =~= out@ + replace_all(cs@.subrange(i + ps@.len(), n as int), ps@, rs@));
            i = i + ps.len();
        } else {
            proof {
                if rest.len() >= ps@.len() {
                    assert(rest.subrange(0, ps@.len() as int) =~= cs@.subrange(
                        i as int,
                        i + ps@.len(),
                    ));
                }
            }
            assert(rest.drop_first() =~= cs@.subrange(i + 1, n as int));
            out.push(cs[i]);
            assert(before + (seq![cs@[i as int]] + replace_all(cs@.subrange(i + 1, n as int), ps@, rs@))
                =~= out@ + replace_all(cs@.subrange(i + 1, n as int), ps@, rs@));
            i = i + 1;
        }
    }
    assert(out@ =~= replace_all(cs@, ps@, rs@));
    string_of(&out)
}

} // verus!
