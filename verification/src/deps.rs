//! The graph of local path dependencies: which crates a program uses, and
//! the order in which they are bundled (dependencies first).

use vstd::prelude::*;

use crate::path::texts;

verus! {

broadcast use vstd::seq_lib::group_seq_properties;

/// A local crate: the directory it lives in and the names of its own
/// local dependencies.
pub struct DepInfo {
    pub path: String,
    pub deps: Vec<String>,
}

// ---------------------------------------------------------------------
// Specification
// ---------------------------------------------------------------------

/// The names of the crates of a dependency table.
pub open spec fn key_texts(g: Seq<(String, DepInfo)>) -> Seq<Seq<char>> {
    g.map_values(|e: (String, DepInfo)| e.0@)
}

/// The names of the dependencies of a crate.
pub open spec fn dep_names(info: DepInfo) -> Seq<Seq<char>> {
    texts(info.deps@)
}

/// `d` names a crate of the table.
pub open spec fn is_key(g: Seq<(String, DepInfo)>, d: Seq<char>) -> bool {
    key_texts(g).contains(d)
}

/// Every dependency of crate `k` that is a crate of the table is in `r`.
pub open spec fn deps_within(g: Seq<(String, DepInfo)>, k: int, r: Seq<Seq<char>>) -> bool {
    forall|j: int|
        0 <= j < dep_names(g[k].1).len() && is_key(g, #[trigger] dep_names(g[k].1)[j])
            ==> r.contains(dep_names(g[k].1)[j])
}

/// `a` comes before `b` (or equals it) in the order of `String`: the
/// lexicographic order of their characters.
pub open spec fn lex_le(a: Seq<char>, b: Seq<char>) -> bool
    decreases a.len(),
{
    if a.len() == 0 {
        true
    } else if b.len() == 0 {
        false
    } else if a[0] != b[0] {
        a[0] < b[0]
    } else {
        lex_le(a.drop_first(), b.drop_first())
    }
}

/// The indices, taken as names, are in ascending order.
pub open spec fn sorted_by_name(v: Seq<usize>, names: Seq<Seq<char>>) -> bool {
    forall|i: int, j: int|
        0 <= i < j < v.len() ==> lex_le(names[v[i] as int], names[v[j] as int])
}

/// `tg` lists the table indices of the dependencies of crate `k` that are
/// crates of the table.
pub open spec fn target_ok(g: Seq<(String, DepInfo)>, k: int, tg: Seq<usize>) -> bool {
    &&& forall|j: int|
        0 <= j < tg.len() ==> {
            &&& #[trigger] tg[j] < g.len()
            &&& dep_names(g[k].1).contains(key_texts(g)[tg[j] as int])
        }
    &&& forall|q: int|
        0 <= q < dep_names(g[k].1).len() && is_key(g, #[trigger] dep_names(g[k].1)[q])
            ==> exists|j: int| 0 <= j < tg.len() && key_texts(g)[#[trigger] tg[j] as int] == dep_names(
            g[k].1,
        )[q]
}

/// `tgs[k]` lists the targets of each crate `k`.
pub open spec fn targets_ok(g: Seq<(String, DepInfo)>, tgs: Seq<Vec<usize>>) -> bool {
    &&& tgs.len() == g.len()
    &&& forall|k: int| 0 <= k < g.len() ==> target_ok(g, k, #[trigger] tgs[k]@)
}

/// Every target of `tg` is marked done.
pub open spec fn all_marked(tg: Seq<usize>, done: Seq<bool>) -> bool {
    forall|j: int| 0 <= j < tg.len() ==> done[#[trigger] tg[j] as int]
}

/// The table's entry for crate `n` (the first, if several).
pub open spec fn lookup(g: Seq<(String, DepInfo)>, n: Seq<char>) -> Option<DepInfo>
    decreases g.len(),
{
    if g.len() == 0 {
        None
    } else if g[0].0@ == n {
        Some(g[0].1)
    } else {
        lookup(g.drop_first(), n)
    }
}

/// The program's source names the local crate `n` in a path (`n::`, with
/// `-` written `_`).
pub open spec fn directly_used(main: Seq<char>, local: Seq<Seq<char>>, n: Seq<char>) -> bool {
    local.contains(n) && crate::text::contains_seq(
        main,
        crate::text::underscored(n) + crate::path::colons(),
    )
}

/// `s` holds each dependency of each of its crates that the table knows.
pub open spec fn closed_under(g: Seq<(String, DepInfo)>, s: Set<Seq<char>>) -> bool {
    forall|n: Seq<char>, j: int|
        s.contains(n) && lookup(g, n) is Some && 0 <= j < dep_names(lookup(g, n)->0).len()
            ==> s.contains(#[trigger] dep_names(lookup(g, n)->0)[j])
}

/// The crates a program uses: those in every set that holds the crates
/// its source names and the known dependencies of each of its crates.
pub open spec fn used_set(main: Seq<char>, local: Seq<Seq<char>>, g: Seq<(String, DepInfo)>) -> Set<
    Seq<char>,
> {
    Set::new(
        |n: Seq<char>|
            forall|s: Set<Seq<char>>|
                (forall|m: Seq<char>| directly_used(main, local, m) ==> #[trigger] s.contains(m))
                    && #[trigger] closed_under(g, s) ==> s.contains(n),
    )
}

/// The entries of the table whose crates are in `s`, in order.
pub open spec fn entries_in(g: Seq<(String, DepInfo)>, s: Set<Seq<char>>) -> Seq<(String, DepInfo)>
    decreases g.len(),
{
    if g.len() == 0 {
        seq![]
    } else if s.contains(g.last().0@) {
        entries_in(g.drop_last(), s).push(g.last())
    } else {
        entries_in(g.drop_last(), s)
    }
}

/// All the dependency names of the table, one crate after the other.
pub open spec fn all_dep_names(g: Seq<(String, DepInfo)>) -> Seq<Seq<char>>
    decreases g.len(),
{
    if g.len() == 0 {
        seq![]
    } else {
        all_dep_names(g.drop_last()) + dep_names(g.last().1)
    }
}

// ---------------------------------------------------------------------
// Lemmas
// ---------------------------------------------------------------------

pub proof fn lemma_lex_total(a: Seq<char>, b: Seq<char>)
    ensures
        lex_le(a, b) || lex_le(b, a),
    decreases a.len(),
{
    if a.len() > 0 && b.len() > 0 && a[0] == b[0] {
        lemma_lex_total(a.drop_first(), b.drop_first());
    }
}

pub proof fn lemma_lex_trans(a: Seq<char>, b: Seq<char>, c: Seq<char>)
    requires
        lex_le(a, b),
        lex_le(b, c),
    ensures
        lex_le(a, c),
    decreases a.len(),
{
    if a.len() > 0 && b.len() > 0 && c.len() > 0 && a[0] == b[0] && b[0] == c[0] {
        lemma_lex_trans(a.drop_first(), b.drop_first(), c.drop_first());
    }
}

/// A sequence of distinct indices below `n` has at most `n` elements.
pub proof fn lemma_distinct_below(s: Seq<usize>, n: nat)
    requires
        s.no_duplicates(),
        forall|i: int| 0 <= i < s.len() ==> s[i] < n,
    ensures
        s.len() <= n,
{
    let t = s.map_values(|x: usize| x as int);
    assert(t.no_duplicates()) by {
        assert forall|i: int, j: int| 0 <= i < t.len() && 0 <= j < t.len() && i != j implies t[i]
            != t[j] by {
            assert(s[i] != s[j]);
        }
    }
    t.unique_seq_to_set();
    vstd::set_lib::lemma_int_range(0, n as int);
    assert(t.to_set().subset_of(vstd::set_lib::set_int_range(0, n as int)));
    vstd::set_lib::lemma_len_subset(t.to_set(), vstd::set_lib::set_int_range(0, n as int));
}

/// A sequence of distinct elements of `u` is no longer than `u`.
pub proof fn lemma_distinct_within<A>(v: Seq<A>, u: Seq<A>)
    requires
        v.no_duplicates(),
        forall|i: int| 0 <= i < v.len() ==> u.contains(#[trigger] v[i]),
    ensures
        v.len() <= u.len(),
{
    v.unique_seq_to_set();
    u.lemma_cardinality_of_set();
    assert(v.to_set().subset_of(u.to_set()));
    vstd::set_lib::lemma_len_subset(v.to_set(), u.to_set());
}

/// The entry that `lookup` finds is in the table, under that name.
pub proof fn lemma_lookup(g: Seq<(String, DepInfo)>, n: Seq<char>)
    ensures
        lookup(g, n) matches Some(info) ==> exists|k: int| 0 <= k < g.len() && g[k].0@ == n && g[k].1 == info,
    decreases g.len(),
{
    if g.len() > 0 && g[0].0@ != n {
        lemma_lookup(g.drop_first(), n);
        if lookup(g, n) is Some {
            let k = choose|k: int| 0 <= k < g.drop_first().len() && g.drop_first()[k].0@ == n && g.drop_first()[k].1 == lookup(g, n)->0;
            assert(g[k + 1] == g.drop_first()[k]);
        }
    }
}

/// Every dependency name of every crate is among `all_dep_names`.
pub proof fn lemma_all_dep_names(g: Seq<(String, DepInfo)>, k: int, j: int)
    requires
        0 <= k < g.len(),
        0 <= j < dep_names(g[k].1).len(),
    ensures
        all_dep_names(g).contains(dep_names(g[k].1)[j]),
    decreases g.len(),
{
    let a = all_dep_names(g.drop_last());
    let b = dep_names(g.last().1);
    if k == g.len() - 1 {
        assert((a + b)[a.len() + j] == b[j]);
    } else {
        lemma_all_dep_names(g.drop_last(), k, j);
        let i = choose|i: int| 0 <= i < a.len() && a[i] == dep_names(g[k].1)[j];
        assert((a + b)[i] == a[i]);
    }
}

// ---------------------------------------------------------------------
// Executable code
// ---------------------------------------------------------------------

/// `a` comes before `b` or equals it, in the order of `String`.
fn name_le(a: &Vec<char>, b: &Vec<char>) -> (r: bool)
    ensures
        r == lex_le(a@, b@),
{
    let mut i: usize = 0;
    while i < a.len() && i < b.len() && a[i] == b[i]
        invariant
            i <= a@.len(),
            i <= b@.len(),
            lex_le(a@, b@) == lex_le(a@.skip(i as int), b@.skip(i as int)),
        decreases a@.len() - i,
    {
        assert(a@.skip(i as int).drop_first() =~= a@.skip(i + 1));
        assert(b@.skip(i as int).drop_first() =~= b@.skip(i + 1));
        i += 1;
    }
    if i == a.len() {
        true
    } else if i == b.len() {
        false
    } else {
        a[i] < b[i]
    }
}

/// The indices ordered by their names (ascending, as `sort` orders strings).
fn sort_by_name(v: &Vec<usize>, names: &Vec<Vec<char>>) -> (r: Vec<usize>)
    requires
        forall|i: int| 0 <= i < v@.len() ==> v@[i] < names@.len(),
    ensures
        r@.len() == v@.len(),
        r@.to_multiset() == v@.to_multiset(),
        forall|x: usize| r@.contains(x) <==> v@.contains(x),
        v@.no_duplicates() ==> r@.no_duplicates(),
        forall|i: int| 0 <= i < r@.len() ==> r@[i] < names@.len(),
        sorted_by_name(r@, crate::text::views(names@)),
{
    broadcast use vstd::multiset::group_multiset_axioms, vstd::seq_lib::to_multiset_len;
    let ghost nv = crate::text::views(names@);
    let mut r: Vec<usize> = Vec::new();
    let mut i: usize = 0;
    while i < v.len()
        invariant
            i <= v@.len(),
            nv == crate::text::views(names@),
            forall|k: int| 0 <= k < v@.len() ==> v@[k] < names@.len(),
            r@.to_multiset() == v@.take(i as int).to_multiset(),
            forall|k: int| 0 <= k < r@.len() ==> r@[k] < names@.len(),
            sorted_by_name(r@, nv),
        decreases v@.len() - i,
    {
        let x = v[i];
        let mut p = r.len();
        while p > 0 && !name_le(&names[r[p - 1]], &names[x])
            invariant
                p <= r@.len(),
                x < names@.len(),
                nv == crate::text::views(names@),
                forall|k: int| 0 <= k < r@.len() ==> r@[k] < names@.len(),
                forall|k: int| p <= k < r@.len() ==> !lex_le(nv[r@[k] as int], nv[x as int]),
            decreases p,
        {
            p -= 1;
        }
        proof {
            assert forall|k: int| p <= k < r@.len() implies lex_le(nv[x as int], nv[r@[k] as int]) by {
                lemma_lex_total(nv[x as int], nv[r@[k] as int]);
            }
            assert forall|k: int| 0 <= k < p implies lex_le(nv[r@[k] as int], nv[x as int]) by {
                if p > 0 {
                    if k < p - 1 {
                        lemma_lex_trans(nv[r@[k] as int], nv[r@[p - 1] as int], nv[x as int]);
                    }
                }
            }
            assert(v@.take(i + 1) =~= v@.take(i as int).push(x));
            let s2 = r@.insert(p as int, x);
            assert(s2.remove(p as int) =~= r@);
            assert(s2[p as int] == x);
            s2.to_multiset_ensures();
            assert(s2.to_multiset() =~= r@.to_multiset().insert(x));
            assert forall|a: int, b: int| 0 <= a < b < s2.len() implies lex_le(
                nv[s2[a] as int],
                nv[s2[b] as int],
            ) by {
                if b < p {
                } else if b == p {
                } else if a < p {
                    lemma_lex_trans(nv[s2[a] as int], nv[x as int], nv[s2[b] as int]);
                } else if a == p {
                } else {
                }
            }
            v@.take(i as int).to_multiset_ensures();
        }
        r.insert(p, x);
        i += 1;
    }
    proof {
        assert(v@.take(v@.len() as int) =~= v@);
        assert(r@.to_multiset() == v@.to_multiset());
        r@.to_multiset_ensures();
        v@.to_multiset_ensures();
        assert forall|x: usize| r@.contains(x) <==> v@.contains(x) by {
            assert(r@.to_multiset().count(x) == v@.to_multiset().count(x));
        }
        if v@.no_duplicates() {
            v@.lemma_multiset_has_no_duplicates();
            assert forall|x: usize| r@.to_multiset().count(x) <= 1 by {}
            r@.lemma_multiset_has_no_duplicates_conv();
        }
    }
    r
}

/// The table index of each dependency of crate `k` that is a crate of the table.
fn key_targets(g: &Vec<(String, DepInfo)>, k: usize) -> (tg: Vec<usize>)
    requires
        k < g@.len(),
    ensures
        target_ok(g@, k as int, tg@),
{
    let deps = &g[k].1.deps;
    let ghost dn = dep_names(g@[k as int].1);
    let ghost kt = key_texts(g@);
    let mut tg: Vec<usize> = Vec::new();
    let mut q: usize = 0;
    while q < deps.len()
        invariant
            q <= deps@.len(),
            dn == texts(deps@),
            dn == dep_names(g@[k as int].1),
            kt == key_texts(g@),
            kt.len() == g@.len(),
            forall|j: int|
                0 <= j < tg@.len() ==> {
                    &&& #[trigger] tg@[j] < g@.len()
                    &&& dn.contains(kt[tg@[j] as int])
                },
            forall|q2: int|
                0 <= q2 < q && kt.contains(#[trigger] dn[q2]) ==> exists|j: int|
                    0 <= j < tg@.len() && kt[#[trigger] tg@[j] as int] == dn[q2],
        decreases deps@.len() - q,
    {
        let mut m: usize = 0;
        while m < g.len() && !(g[m].0 == deps[q])
            invariant
                m <= g@.len(),
                q < deps@.len(),
                dn == texts(deps@),
                kt == key_texts(g@),
                forall|m2: int| 0 <= m2 < m ==> kt[m2] != dn[q as int],
            decreases g@.len() - m,
        {
            m += 1;
        }
        let ghost old_tg = tg@;
        if m < g.len() {
            assert(kt[m as int] == dn[q as int]);
            assert(dn.contains(kt[m as int]));
            tg.push(m);
            assert forall|q2: int| 0 <= q2 < q + 1 && kt.contains(#[trigger] dn[q2]) implies exists|
                j: int,
            | 0 <= j < tg@.len() && kt[#[trigger] tg@[j] as int] == dn[q2] by {
                if q2 < q {
                    let j = choose|j: int| 0 <= j < old_tg.len() && kt[old_tg[j] as int] == dn[q2];
                    assert(tg@[j] == old_tg[j]);
                } else {
                    assert(tg@[old_tg.len() as int] == m);
                }
            }
        } else {
            assert(!kt.contains(dn[q as int]));
        }
        q += 1;
    }
    tg
}

/// Every index of `tg` is marked done.
fn all_done(tg: &Vec<usize>, done: &Vec<bool>) -> (b: bool)
    requires
        forall|j: int| 0 <= j < tg@.len() ==> tg@[j] < done@.len(),
    ensures
        b == all_marked(tg@, done@),
{
    let mut j: usize = 0;
    while j < tg.len()
        invariant
            j <= tg@.len(),
            forall|i: int| 0 <= i < tg@.len() ==> tg@[i] < done@.len(),
            forall|i: int| 0 <= i < j ==> done@[#[trigger] tg@[i] as int],
        decreases tg@.len() - j,
    {
        if !done[tg[j]] {
            return false;
        }
        j += 1;
    }
    true
}

/// The state of the ordering: `q` the crates taken up so far (the first
/// `head` of them emitted), with their marks.
pub open spec fn order_state(
    n: nat,
    tgs: Seq<Vec<usize>>,
    q: Seq<usize>,
    head: int,
    done: Seq<bool>,
    queued: Seq<bool>,
) -> bool {
    &&& tgs.len() == n
    &&& done.len() == n
    &&& queued.len() == n
    &&& forall|k: int, j: int| 0 <= k < n && 0 <= j < tgs[k]@.len() ==> #[trigger] tgs[k]@[j] < n
    &&& 0 <= head <= q.len() <= n
    &&& q.no_duplicates()
    &&& forall|p: int| 0 <= p < q.len() ==> #[trigger] q[p] < n
    &&& forall|k: int| 0 <= k < n ==> (#[trigger] queued[k] <==> q.contains(k as usize))
    &&& forall|k: int| 0 <= k < n ==> (#[trigger] done[k] <==> q.take(head).contains(k as usize))
    &&& order_ok(tgs, q)
}

/// The `j`th target of crate `x`.
pub open spec fn target(tgs: Seq<Vec<usize>>, x: usize, j: int) -> usize {
    tgs[x as int]@[j]
}

/// The number of targets of crate `x`.
pub open spec fn n_targets(tgs: Seq<Vec<usize>>, x: usize) -> nat {
    tgs[x as int]@.len()
}

/// Each target of each crate of `q` comes before it in `q`.
pub open spec fn order_ok(tgs: Seq<Vec<usize>>, q: Seq<usize>) -> bool {
    forall|p: int, j: int|
        0 <= p < q.len() && 0 <= j < n_targets(tgs, q[p]) ==> q.take(p).contains(
            #[trigger] target(tgs, q[p], j),
        )
}

/// Appending crates whose targets are all among the first `head` keeps
/// the order.
proof fn lemma_order_extend(tgs: Seq<Vec<usize>>, q0: Seq<usize>, s: Seq<usize>, head: int)
    requires
        order_ok(tgs, q0),
        0 <= head <= q0.len(),
        forall|p: int, j: int|
            0 <= p < s.len() && 0 <= j < n_targets(tgs, s[p]) ==> q0.take(head).contains(
                #[trigger] target(tgs, s[p], j),
            ),
    ensures
        order_ok(tgs, q0 + s),
{
    let q = q0 + s;
    assert forall|p: int, j: int|
        0 <= p < q.len() && 0 <= j < n_targets(tgs, q[p]) implies q.take(p).contains(
            #[trigger] target(tgs, q[p], j),
        ) by {
        if p < q0.len() {
            assert(q[p] == q0[p]);
            assert(q0.take(p).contains(target(tgs, q0[p], j)));
            let r = choose|r: int| 0 <= r < p && q0.take(p)[r] == target(tgs, q0[p], j);
            assert(q.take(p)[r] == q0[r]);
        } else {
            let pp = p - q0.len();
            assert(q[p] == s[pp]);
            assert(q0.take(head).contains(target(tgs, s[pp], j)));
            let r = choose|r: int| 0 <= r < head && q0.take(head)[r] == target(tgs, s[pp], j);
            assert(q.take(p)[r] == q0[r]);
        }
    }
}

/// The crates not yet taken up that are ready: all their targets are done.
fn ready_crates(tgs: &Vec<Vec<usize>>, done: &Vec<bool>, queued: &Vec<bool>) -> (next: Vec<usize>)
    requires
        done@.len() == tgs@.len(),
        queued@.len() == tgs@.len(),
        forall|k: int, j: int|
            0 <= k < tgs@.len() && 0 <= j < tgs@[k]@.len() ==> #[trigger] tgs@[k]@[j] < tgs@.len(),
    ensures
        next@.no_duplicates(),
        forall|p: int| 0 <= p < next@.len() ==> #[trigger] next@[p] < tgs@.len(),
        forall|p: int| 0 <= p < next@.len() ==> !queued@[#[trigger] next@[p] as int],
        forall|p: int|
            0 <= p < next@.len() ==> all_marked(tgs@[#[trigger] next@[p] as int]@, done@),
        forall|i: int|
            0 <= i < tgs@.len() && !(#[trigger] queued@[i]) && !next@.contains(i as usize)
                ==> !all_marked(tgs@[i]@, done@),
{
    let n = tgs.len();
    let mut next: Vec<usize> = Vec::new();
    let mut k: usize = 0;
    while k < n
        invariant
            k <= n,
            n == tgs@.len(),
            done@.len() == n,
            queued@.len() == n,
            forall|k2: int, j: int|
                0 <= k2 < n && 0 <= j < tgs@[k2]@.len() ==> #[trigger] tgs@[k2]@[j] < n,
            next@.no_duplicates(),
            forall|p: int| 0 <= p < next@.len() ==> #[trigger] next@[p] < k,
            forall|p: int| 0 <= p < next@.len() ==> !queued@[#[trigger] next@[p] as int],
            forall|p: int|
                0 <= p < next@.len() ==> all_marked(tgs@[#[trigger] next@[p] as int]@, done@),
            forall|i: int|
                0 <= i < k && !(#[trigger] queued@[i]) && !next@.contains(i as usize)
                    ==> !all_marked(tgs@[i]@, done@),
        decreases n - k,
    {
        if !queued[k] && all_done(&tgs[k], done) {
            next.push(k);
        }
        k += 1;
    }
    next
}

/// `n` is among the names.
pub(crate) fn contains_name(v: &Vec<String>, n: &String) -> (b: bool)
    ensures
        b == texts(v@).contains(n@),
{
    let mut i: usize = 0;
    while i < v.len()
        invariant
            i <= v@.len(),
            forall|k: int| 0 <= k < i ==> v@[k]@ != n@,
        decreases v@.len() - i,
    {
        if v[i] == *n {
            assert(texts(v@)[i as int] == n@);
            return true;
        }
        i += 1;
    }
    assert forall|k: int| 0 <= k < texts(v@).len() implies texts(v@)[k] != n@ by {
        assert(texts(v@)[k] == v@[k]@);
    }
    false
}

/// The index of the table's entry for crate `n`.
fn lookup_index(g: &Vec<(String, DepInfo)>, n: &String) -> (r: Option<usize>)
    ensures
        match r {
            None => lookup(g@, n@) is None,
            Some(k) => k < g@.len() && lookup(g@, n@) == Some(g@[k as int].1),
        },
{
    let mut i: usize = 0;
    while i < g.len()
        invariant
            i <= g@.len(),
            lookup(g@, n@) == lookup(g@.skip(i as int), n@),
        decreases g@.len() - i,
    {
        assert(g@.skip(i as int).drop_first() =~= g@.skip(i + 1));
        assert(g@.skip(i as int)[0] == g@[i as int]);
        if g[i].0 == *n {
            return Some(i);
        }
        i += 1;
    }
    None
}

/// Finds the local crates that the program uses: those whose name
/// (`name::`, with `-` written `_`) occurs in its source, and every crate
/// that these depend on, directly or not. The result, taken as a set, is
/// the least one that holds the crates named in the source and the known
/// dependencies of each of its crates; no name occurs twice in it.
pub fn find_used_crates(
    main_source: &str,
    local_deps: &Vec<String>,
    all_deps: &Vec<(String, DepInfo)>,
) -> (r: Vec<String>)
    ensures
        texts(r@).no_duplicates(),
        forall|n: Seq<char>|
            directly_used(main_source@, texts(local_deps@), n) ==> texts(r@).contains(n),
        closed_under(all_deps@, texts(r@).to_set()),
        forall|s: Set<Seq<char>>|
            (forall|n: Seq<char>| directly_used(main_source@, texts(local_deps@), n) ==> s.contains(n))
                && #[trigger] closed_under(all_deps@, s) ==> texts(r@).to_set().subset_of(s),
        texts(r@).to_set() == used_set(main_source@, texts(local_deps@), all_deps@),
{
    let main = crate::text::chars_of(main_source);
    let ghost g = all_deps@;
    let ghost local = texts(local_deps@);
    let ghost universe = local + all_dep_names(g);
    let mut visited: Vec<String> = Vec::new();
    let mut i: usize = 0;
    while i < local_deps.len()
        invariant
            i <= local_deps@.len(),
            local == texts(local_deps@),
            main@ == main_source@,
            texts(visited@).no_duplicates(),
            forall|k: int| 0 <= k < visited@.len() ==> #[trigger] directly_used(main@, local, visited@[k]@),
            forall|k: int| 0 <= k < i && directly_used(main@, local, #[trigger] local[k]) ==> texts(visited@).contains(local[k]),
        decreases local_deps@.len() - i,
    {
        let mut prefix = crate::path::underscore_chars(&crate::text::chars_of(local_deps[i].as_str()));
        crate::text::append_chars(&mut prefix, &vec![':', ':']);
        assert(prefix@ =~= crate::text::underscored(local[i as int]) + crate::path::colons());
        if crate::text::contains_chars(&main, &prefix) && !contains_name(&visited, &local_deps[i]) {
            let ghost before = visited@;
            visited.push(local_deps[i].clone());
            assert(texts(visited@) =~= texts(before).push(local[i as int]));
            assert(local.contains(local[i as int]));
        }
        i += 1;
    }
    proof {
        assert forall|n: Seq<char>| directly_used(main@, local, n) implies texts(visited@).contains(n) by {
            let k = choose|k: int| 0 <= k < local.len() && local[k] == n;
        }
        assert forall|k: int| 0 <= k < visited@.len() implies universe.contains(#[trigger] texts(visited@)[k]) by {
            assert(directly_used(main@, local, visited@[k]@));
            let i = choose|i: int| 0 <= i < local.len() && local[i] == visited@[k]@;
            assert(universe[i] == local[i]);
        }
    }
    let mut head: usize = 0;
    while head < visited.len()
        invariant
            head <= visited@.len(),
            g == all_deps@,
            local == texts(local_deps@),
            universe == local + all_dep_names(g),
            texts(visited@).no_duplicates(),
            forall|k: int| 0 <= k < visited@.len() ==> universe.contains(#[trigger] texts(visited@)[k]),
            forall|n: Seq<char>| directly_used(main_source@, local, n) ==> texts(visited@).contains(n),
            forall|n: Seq<char>, j: int|
                texts(visited@).take(head as int).contains(n) && lookup(g, n) is Some && 0 <= j < dep_names(lookup(g, n)->0).len()
                    ==> texts(visited@).contains(#[trigger] dep_names(lookup(g, n)->0)[j]),
            forall|s: Set<Seq<char>>|
                (forall|n: Seq<char>| directly_used(main_source@, local, n) ==> s.contains(n))
                    && #[trigger] closed_under(g, s) ==> texts(visited@).to_set().subset_of(s),
        decreases universe.len() - head,
    {
        proof {
            lemma_distinct_within(texts(visited@), universe);
        }
        let name = visited[head].clone();
        let ghost v0 = visited@;
        assert(texts(v0)[head as int] == name@);
        assert(texts(v0).take(head + 1) =~= texts(v0).take(head as int).push(name@));
        head += 1;
        match lookup_index(all_deps, &name) {
            Some(k) => {
                let deps = &all_deps[k].1.deps;
                let ghost info = all_deps@[k as int].1;
                assert(deps@ == info.deps@);
                let mut j: usize = 0;
                while j < deps.len()
                    invariant
                        j <= deps@.len(),
                        g == all_deps@,
                        deps@ == info.deps@,
                        lookup(g, name@) == Some(info),
                        texts(v0).contains(name@),
                        universe == local + all_dep_names(g),
                        k < g.len(),
                        g[k as int].1 == info,
                        v0.len() <= visited@.len(),
                        visited@.take(v0.len() as int) == v0,
                        texts(visited@).no_duplicates(),
                        forall|x: int| 0 <= x < visited@.len() ==> universe.contains(#[trigger] texts(visited@)[x]),
                        forall|x: int| 0 <= x < j ==> texts(visited@).contains(#[trigger] texts(deps@)[x]),
                        forall|s: Set<Seq<char>>|
                            (forall|n: Seq<char>| directly_used(main_source@, local, n) ==> s.contains(n))
                                && #[trigger] closed_under(g, s) ==> texts(visited@).to_set().subset_of(s),
                    decreases deps@.len() - j,
                {
                    if !contains_name(&visited, &deps[j]) {
                        let ghost before = visited@;
                        let ghost d = deps@[j as int]@;
                        visited.push(deps[j].clone());
                        proof {
                            assert(texts(visited@) =~= texts(before).push(d));
                            assert(visited@.take(v0.len() as int) =~= before.take(v0.len() as int));
                            assert(d == dep_names(info)[j as int]);
                            lemma_all_dep_names(g, k as int, j as int);
                            assert(universe.contains(d)) by {
                                let i = choose|i: int| 0 <= i < all_dep_names(g).len() && all_dep_names(g)[i] == d;
                                assert(universe[local.len() + i] == d);
                            }
                            assert forall|s: Set<Seq<char>>|
                                (forall|n: Seq<char>| directly_used(main_source@, local, n) ==> s.contains(n))
                                    && #[trigger] closed_under(g, s) implies texts(visited@).to_set().subset_of(s) by {
                                assert(texts(before).to_set().subset_of(s));
                                assert(texts(v0).to_set().contains(name@));
                                assert(texts(before).to_set().contains(name@)) by {
                                    let i = choose|i: int| 0 <= i < texts(v0).len() && texts(v0)[i] == name@;
                                    assert(before[i] == v0[i]);
                                    assert(texts(before)[i] == name@);
                                }
                                assert(s.contains(dep_names(lookup(g, name@)->0)[j as int]));
                            }
                            assert forall|x: int| 0 <= x < j + 1 implies texts(visited@).contains(#[trigger] texts(deps@)[x]) by {
                                if x < j {
                                    let i = choose|i: int| 0 <= i < texts(before).len() && texts(before)[i] == texts(deps@)[x];
                                    assert(texts(visited@)[i] == texts(before)[i]);
                                } else {
                                    assert(texts(visited@)[before.len() as int] == d);
                                }
                            }
                        }
                    }
                    j += 1;
                }
                proof {
                    assert forall|n: Seq<char>, jj: int|
                        texts(visited@).take(head as int).contains(n) && lookup(g, n) is Some && 0 <= jj < dep_names(lookup(g, n)->0).len()
                            implies texts(visited@).contains(#[trigger] dep_names(lookup(g, n)->0)[jj]) by {
                        assert(texts(visited@).take(head as int) =~= texts(v0).take(head as int));
                        if n == name@ {
                            assert(texts(deps@)[jj] == dep_names(lookup(g, n)->0)[jj]);
                        } else {
                            assert(texts(v0).take(head - 1).contains(n));
                            let i = choose|i: int| 0 <= i < texts(v0).len() && texts(v0)[i] == dep_names(lookup(g, n)->0)[jj];
                            assert(texts(visited@)[i] == texts(v0)[i]);
                        }
                    }
                    assert forall|n: Seq<char>| directly_used(main_source@, local, n) implies texts(visited@).contains(n) by {
                        let i = choose|i: int| 0 <= i < texts(v0).len() && texts(v0)[i] == n;
                        assert(texts(visited@)[i] == texts(v0)[i]);
                    }
                }
            },
            None => {
                proof {
                    assert forall|n: Seq<char>, jj: int|
                        texts(visited@).take(head as int).contains(n) && lookup(g, n) is Some && 0 <= jj < dep_names(lookup(g, n)->0).len()
                            implies texts(visited@).contains(#[trigger] dep_names(lookup(g, n)->0)[jj]) by {
                        if n != name@ {
                            assert(texts(v0).take(head - 1).contains(n));
                        }
                    }
                }
            },
        }
    }
    proof {
        assert(texts(visited@).take(head as int) =~= texts(visited@));
        assert forall|n: Seq<char>, jj: int|
            texts(visited@).to_set().contains(n) && lookup(g, n) is Some && 0 <= jj < dep_names(lookup(g, n)->0).len()
                implies texts(visited@).to_set().contains(#[trigger] dep_names(lookup(g, n)->0)[jj]) by {
            assert(texts(visited@).contains(n));
        }
    }
    proof {
        lemma_used_set(main_source@, texts(local_deps@), all_deps@, texts(visited@).to_set());
    }
    visited
}

/// A set that holds the named crates, is closed, and lies in every such
/// set is the set of used crates.
proof fn lemma_used_set(main: Seq<char>, local: Seq<Seq<char>>, g: Seq<(String, DepInfo)>, r: Set<Seq<char>>)
    requires
        forall|n: Seq<char>| directly_used(main, local, n) ==> r.contains(n),
        closed_under(g, r),
        forall|s: Set<Seq<char>>|
            (forall|n: Seq<char>| directly_used(main, local, n) ==> s.contains(n))
                && #[trigger] closed_under(g, s) ==> r.subset_of(s),
    ensures
        r == used_set(main, local, g),
{
    let u = used_set(main, local, g);
    assert forall|n: Seq<char>| r.contains(n) implies u.contains(n) by {
        assert forall|s: Set<Seq<char>>|
            (forall|m: Seq<char>| directly_used(main, local, m) ==> #[trigger] s.contains(m))
                && #[trigger] closed_under(g, s) implies s.contains(n) by {
            assert(r.subset_of(s));
        }
    }
    assert forall|n: Seq<char>| u.contains(n) implies r.contains(n) by {
        assert((forall|m: Seq<char>| directly_used(main, local, m) ==> #[trigger] r.contains(m)) && closed_under(g, r));
    }
    assert(r =~= u);
}

/// A program that names none of its local crates uses none.
pub proof fn law_nothing_named_nothing_used(main: Seq<char>, local: Seq<Seq<char>>, g: Seq<(String, DepInfo)>)
    requires
        forall|n: Seq<char>| !directly_used(main, local, n),
    ensures
        used_set(main, local, g) == Set::<Seq<char>>::empty(),
{
    let e = Set::<Seq<char>>::empty();
    assert(closed_under(g, e));
    assert forall|n: Seq<char>| !used_set(main, local, g).contains(n) by {
        assert((forall|m: Seq<char>| directly_used(main, local, m) ==> #[trigger] e.contains(m)) && closed_under(g, e));
    }
    assert(used_set(main, local, g) =~= e);
}

/// The crates a program names are used, and so is every known dependency
/// of a used crate.
pub proof fn law_used_crates_closed(main: Seq<char>, local: Seq<Seq<char>>, g: Seq<(String, DepInfo)>)
    ensures
        forall|n: Seq<char>| directly_used(main, local, n) ==> used_set(main, local, g).contains(n),
        closed_under(g, used_set(main, local, g)),
{
    let u = used_set(main, local, g);
    assert forall|n: Seq<char>| directly_used(main, local, n) implies u.contains(n) by {
        assert forall|s: Set<Seq<char>>|
            (forall|m: Seq<char>| directly_used(main, local, m) ==> #[trigger] s.contains(m))
                && #[trigger] closed_under(g, s) implies s.contains(n) by {}
    }
    assert forall|n: Seq<char>, j: int|
        u.contains(n) && lookup(g, n) is Some && 0 <= j < dep_names(lookup(g, n)->0).len()
            implies u.contains(#[trigger] dep_names(lookup(g, n)->0)[j]) by {
        assert forall|s: Set<Seq<char>>|
            (forall|m: Seq<char>| directly_used(main, local, m) ==> #[trigger] s.contains(m))
                && #[trigger] closed_under(g, s) implies s.contains(dep_names(lookup(g, n)->0)[j]) by {
            assert(s.contains(n));
        }
    }
}

/// The entries of the table whose crates the program uses (see
/// `used_set`), in the table's order.
pub fn used_deps(main_source: &str, local_deps: &Vec<String>, all_deps: Vec<(String, DepInfo)>) -> (r: Vec<
    (String, DepInfo),
>)
    ensures
        r@ == entries_in(all_deps@, used_set(main_source@, texts(local_deps@), all_deps@)),
{
    let ghost g = all_deps@;
    let ghost u = used_set(main_source@, texts(local_deps@), all_deps@);
    let used = find_used_crates(main_source, local_deps, &all_deps);
    let n = all_deps.len();
    let mut rest = all_deps;
    let mut out: Vec<(String, DepInfo)> = Vec::new();
    let mut k: usize = 0;
    assert(g.skip(0) =~= g);
    while rest.len() > 0
        invariant
            k <= g.len(),
            g.len() == n,
            rest@ == g.skip(k as int),
            out@ == entries_in(g.take(k as int), u),
            texts(used@).to_set() == u,
        decreases rest@.len(),
    {
        assert(g.skip(k as int).len() > 0);
        let e = rest.remove(0);
        assert(e == g[k as int]);
        assert(g.take(k + 1).drop_last() =~= g.take(k as int));
        assert(g.take(k + 1).last() == g[k as int]);
        assert(rest@ =~= g.skip(k + 1));
        if contains_name(&used, &e.0) {
            out.push(e);
        }
        k += 1;
    }
    assert(g.take(k as int) =~= g);
    out
}

/// The breadth-first resolution of local dependencies, as a state
/// machine: the caller reads the manifest of each crate that
/// `next_request` names and hands its local dependencies to `record`.
pub struct DepResolver {
    all: Vec<(String, DepInfo)>,
    queue: Vec<(String, String)>,
    head: usize,
    pending: Option<(String, String)>,
    direct: Ghost<Seq<Seq<char>>>,
    start: Ghost<Seq<(Seq<char>, Seq<char>)>>,
    origin: Ghost<Seq<int>>,
}

/// The names of a list of (name, path) pairs.
pub open spec fn pair_names(v: Seq<(String, String)>) -> Seq<Seq<char>> {
    v.map_values(|e: (String, String)| e.0@)
}

/// The texts of a list of (name, path) pairs.
pub open spec fn pair_views(v: Seq<(String, String)>) -> Seq<(Seq<char>, Seq<char>)> {
    v.map_values(|e: (String, String)| (e.0@, e.1@))
}

/// How many pairs at the front of `w` name crates among `keys`.
pub open spec fn known_prefix(w: Seq<(Seq<char>, Seq<char>)>, keys: Seq<Seq<char>>) -> nat
    decreases w.len(),
{
    if w.len() == 0 {
        0
    } else if keys.contains(w[0].0) {
        1 + known_prefix(w.drop_first(), keys)
    } else {
        0
    }
}

/// The path of the first pair named `n`, if any.
pub open spec fn first_path(w: Seq<(Seq<char>, Seq<char>)>, n: Seq<char>) -> Option<Seq<char>>
    decreases w.len(),
{
    if w.len() == 0 {
        None
    } else if w[0].0 == n {
        Some(w[0].1)
    } else {
        first_path(w.drop_first(), n)
    }
}

proof fn lemma_first_path_at(w: Seq<(Seq<char>, Seq<char>)>, h: int, n: Seq<char>)
    requires
        0 <= h < w.len(),
        w[h].0 == n,
        forall|q: int| 0 <= q < h ==> (#[trigger] w[q]).0 != n,
    ensures
        first_path(w, n) == Some(w[h].1),
    decreases h,
{
    if h > 0 {
        assert(w[0].0 != n);
        assert forall|q: int| 0 <= q < h - 1 implies (#[trigger] w.drop_first()[q]).0 != n by {
            assert(w.drop_first()[q] == w[q + 1]);
        }
        lemma_first_path_at(w.drop_first(), h - 1, n);
    }
}

proof fn lemma_first_path_extend(w: Seq<(Seq<char>, Seq<char>)>, v: Seq<(Seq<char>, Seq<char>)>, n: Seq<char>)
    requires
        first_path(w, n) is Some,
    ensures
        first_path(w + v, n) == first_path(w, n),
    decreases w.len(),
{
    if w.len() > 0 && w[0].0 != n {
        assert((w + v).drop_first() =~= w.drop_first() + v);
        lemma_first_path_extend(w.drop_first(), v, n);
    }
}

/// The pairs whose names are not among `keys`, in order.
pub open spec fn unknown_pairs(w: Seq<(Seq<char>, Seq<char>)>, keys: Seq<Seq<char>>) -> Seq<
    (Seq<char>, Seq<char>),
>
    decreases w.len(),
{
    if w.len() == 0 {
        seq![]
    } else if keys.contains(w.last().0) {
        unknown_pairs(w.drop_last(), keys)
    } else {
        unknown_pairs(w.drop_last(), keys).push(w.last())
    }
}

impl DepResolver {
    /// The crates resolved so far, in the order they were resolved.
    pub closed spec fn resolved(&self) -> Seq<(String, DepInfo)> {
        self.all@
    }

    /// The crate whose manifest is awaited, if any.
    pub closed spec fn pending_request(&self) -> Option<(String, String)> {
        self.pending
    }

    /// The names of the crates the resolution started from.
    pub closed spec fn direct_names(&self) -> Seq<Seq<char>> {
        self.direct@
    }

    /// The crates waiting to be looked at (name and path of each), in the
    /// order they were named.
    pub closed spec fn waiting(&self) -> Seq<(Seq<char>, Seq<char>)> {
        pair_views(self.queue@).skip(self.head as int)
    }

    /// Each resolved crate was named by a starting dependency or by the
    /// dependencies of a crate resolved before it.
    pub open spec fn each_named(&self) -> bool {
        forall|k: int|
            0 <= k < self.resolved().len() ==> self.direct_names().contains(
                #[trigger] self.resolved()[k].0@,
            ) || exists|m: int|
                0 <= m < k && dep_names(self.resolved()[m].1).contains(self.resolved()[k].0@)
    }

    /// Every starting dependency and every dependency of a resolved crate
    /// is resolved.
    pub open spec fn complete(&self) -> bool {
        &&& forall|j: int|
            0 <= j < self.direct_names().len() ==> is_key(
                self.resolved(),
                #[trigger] self.direct_names()[j],
            )
        &&& forall|k: int, j: int|
            0 <= k < self.resolved().len() && 0 <= j < dep_names(self.resolved()[k].1).len()
                ==> is_key(self.resolved(), #[trigger] dep_names(self.resolved()[k].1)[j])
    }

    /// The starting dependencies (name and path of each).
    pub closed spec fn direct_pairs(&self) -> Seq<(Seq<char>, Seq<char>)> {
        self.start@
    }

    /// The resolver's internal invariant.
    pub closed spec fn wf(&self) -> bool {
        self.core_wf() && self.paths_ok()
    }

    /// Each resolved or awaited crate has the path of the first entry with
    /// its name among all the crates ever waiting, which begin with the
    /// starting dependencies.
    closed spec fn paths_ok(&self) -> bool {
        let w = pair_views(self.queue@);
        &&& self.start@.len() <= w.len()
        &&& w.take(self.start@.len() as int) == self.start@
        &&& forall|k: int|
            0 <= k < self.all@.len() ==> first_path(w, #[trigger] self.all@[k].0@) == Some(
                self.all@[k].1.path@,
            )
        &&& forall|q: int|
            0 <= q < self.head ==> is_key(self.all@, (#[trigger] w[q]).0) || (self.pending matches Some(
                p,
            ) && p.0@ == w[q].0)
        &&& (self.pending matches Some(p) ==> first_path(w, p.0@) == Some(p.1@))
    }

    /// The resolver's invariant on its order of work.
    closed spec fn core_wf(&self) -> bool {
        let names = pair_names(self.queue@);
        let later = names.skip(self.head as int);
        &&& key_texts(self.all@).no_duplicates()
        &&& self.head <= self.queue@.len()
        &&& self.origin@.len() == self.queue@.len()
        &&& (self.pending matches Some(p) ==> !is_key(self.all@, p.0@))
        &&& (self.pending matches Some(p) ==> exists|q: int|
            0 <= q < self.head && names[q] == p.0@ && self.origin@[q] < self.all@.len())
        &&& forall|q: int|
            0 <= q < names.len() ==> (#[trigger] self.origin@[q] == -1 && self.direct@.contains(
                names[q],
            )) || (0 <= self.origin@[q] < self.all@.len() && dep_names(
                self.all@[self.origin@[q]].1,
            ).contains(names[q]))
        &&& forall|k: int|
            0 <= k < self.all@.len() ==> self.direct@.contains(#[trigger] self.all@[k].0@)
                || exists|m: int|
                0 <= m < k && dep_names(self.all@[m].1).contains(self.all@[k].0@)
        &&& forall|j: int|
            0 <= j < self.direct@.len() ==> is_key(self.all@, #[trigger] self.direct@[j])
                || (self.pending matches Some(p) && p.0@ == self.direct@[j]) || later.contains(
                self.direct@[j],
            )
        &&& forall|k: int, j: int|
            0 <= k < self.all@.len() && 0 <= j < dep_names(self.all@[k].1).len() ==> is_key(
                self.all@,
                #[trigger] dep_names(self.all@[k].1)[j],
            ) || (self.pending matches Some(p) && p.0@ == dep_names(self.all@[k].1)[j])
                || later.contains(dep_names(self.all@[k].1)[j])
    }

    /// Starts from the direct local dependencies (name and path of each).
    pub fn new(direct_deps: Vec<(String, String)>) -> (r: Self)
        ensures
            r.wf(),
            r.resolved() == Seq::<(String, DepInfo)>::empty(),
            r.pending_request() is None,
            r.direct_names() == pair_names(direct_deps@),
            r.waiting() == pair_views(direct_deps@),
            r.direct_pairs() == pair_views(direct_deps@),
    {
        let ghost names = pair_names(direct_deps@);
        let r = DepResolver {
            all: Vec::new(),
            queue: direct_deps,
            head: 0,
            pending: None,
            direct: Ghost(names),
            start: Ghost(pair_views(direct_deps@)),
            origin: Ghost(Seq::new(names.len(), |_i: int| -1int)),
        };
        assert(names.skip(0) =~= names);
        assert(pair_views(direct_deps@).skip(0) =~= pair_views(direct_deps@));
        assert(pair_views(direct_deps@).take(pair_views(direct_deps@).len() as int) =~= pair_views(direct_deps@));
        r
    }

    /// The next crate whose manifest must be read (its name and path): the
    /// first waiting crate that is not resolved yet, the waiting crates
    /// before it being dropped; `None` when none is left, and the
    /// resolution is complete.
    pub fn next_request(&mut self) -> (r: Option<(String, String)>)
        requires
            old(self).wf(),
            old(self).pending_request() is None,
        ensures
            final(self).wf(),
            final(self).resolved() == old(self).resolved(),
            final(self).direct_names() == old(self).direct_names(),
            final(self).direct_pairs() == old(self).direct_pairs(),
            final(self).pending_request() == r,
            final(self).each_named(),
            match r {
                Some(p) => !is_key(final(self).resolved(), p.0@),
                None => final(self).complete(),
            },
            ({
                let w = old(self).waiting();
                let k = known_prefix(w, key_texts(old(self).resolved()));
                match r {
                    Some(p) => k < w.len() && w[k as int] == (p.0@, p.1@) && final(self).waiting()
                        == w.skip(k + 1 as int),
                    None => k == w.len() && final(self).waiting() == Seq::<
                        (Seq<char>, Seq<char>),
                    >::empty(),
                }
            }),
    {
        let ghost w0 = self.waiting();
        let ghost keys = key_texts(self.all@);
        let ghost h0 = self.head as int;
        loop
            invariant
                self.wf(),
                self.pending is None,
                self.all@ == old(self).all@,
                self.direct@ == old(self).direct@,
                self.start@ == old(self).start@,
                w0 == old(self).waiting(),
                keys == key_texts(old(self).resolved()),
                h0 <= self.head,
                self.head - h0 <= w0.len(),
                self.waiting() == w0.skip(self.head - h0),
                known_prefix(w0, keys) == (self.head - h0) + known_prefix(self.waiting(), keys),
            decreases self.queue@.len() - self.head,
        {
            if self.head >= self.queue.len() {
                proof {
                    let names = pair_names(self.queue@);
                    assert(names.skip(self.head as int) =~= Seq::<Seq<char>>::empty());
                    assert(self.waiting() =~= Seq::<(Seq<char>, Seq<char>)>::empty());
                }
                return None;
            }
            let ghost names = pair_names(self.queue@);
            let h = self.head;
            let (name, path) = (self.queue[h].0.clone(), self.queue[h].1.clone());
            assert(names[h as int] == name@);
            assert(names.skip(h as int) =~= seq![name@] + names.skip(h + 1));
            let ghost wv = self.waiting();
            assert(wv[0] == pair_views(self.queue@)[h as int]);
            assert(wv[0] == (name@, path@));
            assert(wv.drop_first() =~= w0.skip(h + 1 - h0));
            let known = contains_key_name(&self.all, &name);
            if !known {
                self.pending = Some((name.clone(), path.clone()));
                self.head = h + 1;
                proof {
                    assert(self.origin@[h as int] == -1 || 0 <= self.origin@[h as int] < self.all@.len());
                    assert(w0[h - h0] == wv[0]);
                    assert(self.waiting() =~= w0.skip(h + 1 - h0));
                    let w = pair_views(self.queue@);
                    assert(w[h as int] == (name@, path@));
                    assert forall|q: int| 0 <= q < h implies (#[trigger] w[q]).0 != name@ by {
                        assert(is_key(self.all@, w[q].0));
                    }
                    lemma_first_path_at(w, h as int, name@);
                    assert forall|q: int| 0 <= q < self.head implies is_key(self.all@, (#[trigger] w[q]).0)
                        || (self.pending matches Some(p) && p.0@ == w[q].0) by {}
                    assert(self.paths_ok());
                }
                return Some((name, path));
            }
            self.head = h + 1;
            assert(self.waiting() =~= wv.drop_first());
            proof {
                let w = pair_views(self.queue@);
                assert(w[h as int].0 == name@);
                assert forall|q: int| 0 <= q < self.head implies is_key(self.all@, (#[trigger] w[q]).0)
                    || (self.pending matches Some(p) && p.0@ == w[q].0) by {}
                assert(self.paths_ok());
            }
        }
    }

    /// Records the local dependencies (name and path of each) of the
    /// awaited crate, which becomes resolved; those not resolved yet join
    /// the end of the waiting crates.
    #[verifier::spinoff_prover]
    pub fn record(&mut self, sub_deps: Vec<(String, String)>)
        requires
            old(self).wf(),
            old(self).pending_request() is Some,
        ensures
            final(self).wf(),
            final(self).pending_request() is None,
            final(self).direct_names() == old(self).direct_names(),
            final(self).direct_pairs() == old(self).direct_pairs(),
            final(self).resolved().len() == old(self).resolved().len() + 1,
            final(self).resolved().take(old(self).resolved().len() as int) == old(self).resolved(),
            final(self).resolved().last().0 == (old(self).pending_request()->0).0,
            final(self).resolved().last().1.path == (old(self).pending_request()->0).1,
            dep_names(final(self).resolved().last().1) == pair_names(sub_deps@),
            final(self).each_named(),
            final(self).waiting() == old(self).waiting() + unknown_pairs(
                pair_views(sub_deps@),
                key_texts(final(self).resolved()),
            ),
    {
        let ghost s0_all = self.all@;
        let ghost s0_queue = self.queue@;
        let ghost s0_origin = self.origin@;
        let ghost s0_pending = self.pending;
        let ghost head = self.head;
        let ghost direct = self.direct@;
        let ghost s0_start = self.start@;
        let (name, path) = match self.pending.take() {
            Some(p) => p,
            None => (String::new(), String::new()),
        };
        let ghost k_new = s0_all.len() as int;
        assert(pair_views(sub_deps@).take(0) =~= Seq::<(Seq<char>, Seq<char>)>::empty());
        let mut dep_list: Vec<String> = Vec::new();
        let mut i: usize = 0;
        while i < sub_deps.len()
            invariant
                i <= sub_deps@.len(),
                texts(dep_list@) == pair_names(sub_deps@).take(i as int),
            decreases sub_deps@.len() - i,
        {
            let ghost before = dep_list@;
            dep_list.push(sub_deps[i].0.clone());
            assert(texts(dep_list@) =~= texts(before).push(sub_deps@[i as int].0@));
            assert(pair_names(sub_deps@).take(i + 1) =~= pair_names(sub_deps@).take(i as int).push(
                sub_deps@[i as int].0@,
            ));
            i += 1;
        }
        assert(pair_names(sub_deps@).take(sub_deps@.len() as int) =~= pair_names(sub_deps@));
        let entry = (name, DepInfo { path, deps: dep_list });
        let ghost e = entry;
        self.all.push(entry);
        proof {
            assert(key_texts(self.all@) =~= key_texts(s0_all).push(e.0@));
            assert(unknown_pairs(pair_views(sub_deps@).take(0), key_texts(self.all@)) =~= Seq::<
                (Seq<char>, Seq<char>),
            >::empty());
            assert(pair_views(self.queue@) =~= pair_views(s0_queue) + Seq::<(Seq<char>, Seq<char>)>::empty());
        }
        let mut j: usize = 0;
        while j < sub_deps.len()
            invariant
                j <= sub_deps@.len(),
                self.all@ == s0_all.push(e),
                k_new == s0_all.len(),
                dep_names(e.1) == pair_names(sub_deps@),
                self.pending is None,
                self.head == head,
                self.direct@ == direct,
                self.start@ == s0_start,
                head <= s0_queue.len(),
                self.queue@.len() == self.origin@.len(),
                s0_queue.len() <= self.queue@.len(),
                self.queue@.take(s0_queue.len() as int) == s0_queue,
                self.origin@.take(s0_queue.len() as int) == s0_origin,
                forall|q: int|
                    s0_queue.len() <= q < self.queue@.len() ==> #[trigger] self.origin@[q] == k_new
                        && dep_names(e.1).contains(pair_names(self.queue@)[q]),
                forall|x: int|
                    0 <= x < j ==> is_key(self.all@, #[trigger] pair_names(sub_deps@)[x])
                        || pair_names(self.queue@).skip(head as int).contains(pair_names(sub_deps@)[x]),
                pair_views(self.queue@) == pair_views(s0_queue) + unknown_pairs(
                    pair_views(sub_deps@).take(j as int),
                    key_texts(self.all@),
                ),
            decreases sub_deps@.len() - j,
        {
            let ghost q1 = self.queue@;
            let ghost pv = pair_views(sub_deps@);
            assert(pv.take(j + 1).drop_last() =~= pv.take(j as int));
            assert(pv.take(j + 1).last() == pv[j as int]);
            if !contains_key_name(&self.all, &sub_deps[j].0) {
                self.queue.push((sub_deps[j].0.clone(), sub_deps[j].1.clone()));
                assert(pair_views(self.queue@) =~= pair_views(q1).push(pv[j as int]));
                self.origin = Ghost(self.origin@.push(k_new));
                proof {
                    let names = pair_names(self.queue@);
                    assert(names =~= pair_names(q1).push(sub_deps@[j as int].0@));
                    assert(self.queue@.take(s0_queue.len() as int) =~= q1.take(s0_queue.len() as int));
                    assert(self.origin@.take(s0_queue.len() as int) =~= self.origin@.drop_last().take(s0_queue.len() as int));
                    assert(dep_names(e.1)[j as int] == sub_deps@[j as int].0@);
                    assert(names.skip(head as int) =~= pair_names(q1).skip(head as int).push(sub_deps@[j as int].0@));
                    assert forall|x: int| 0 <= x < j + 1 implies is_key(self.all@, #[trigger] pair_names(sub_deps@)[x])
                        || names.skip(head as int).contains(pair_names(sub_deps@)[x]) by {
                        if x < j && !is_key(self.all@, pair_names(sub_deps@)[x]) {
                            let w = choose|w: int| 0 <= w < pair_names(q1).skip(head as int).len() && pair_names(q1).skip(head as int)[w] == pair_names(sub_deps@)[x];
                            assert(names.skip(head as int)[w] == pair_names(q1).skip(head as int)[w]);
                        } else if x == j {
                            assert(names.skip(head as int)[names.skip(head as int).len() - 1] == pair_names(sub_deps@)[x]);
                        }
                    }
                    assert forall|q: int|
                        s0_queue.len() <= q < self.queue@.len() implies #[trigger] self.origin@[q] == k_new
                            && dep_names(e.1).contains(pair_names(self.queue@)[q]) by {
                        if q < q1.len() {
                            assert(pair_names(self.queue@)[q] == pair_names(q1)[q]);
                        } else {
                            assert(pair_names(self.queue@)[q] == dep_names(e.1)[j as int]);
                        }
                    }
                }
            }
            j += 1;
        }
        proof {
            let pv = pair_views(sub_deps@);
            assert(pv.take(pv.len() as int) =~= pv);
            assert(pair_views(self.queue@).skip(head as int) =~= pair_views(s0_queue).skip(head as int)
                + unknown_pairs(pv, key_texts(self.all@)));
        }
        proof {
            let pv = pair_views(sub_deps@);
            let w0 = pair_views(s0_queue);
            let w = pair_views(self.queue@);
            let u = unknown_pairs(pv, key_texts(self.all@));
            assert(pv.take(pv.len() as int) =~= pv);
            assert(w =~= w0 + u);
            assert(w.take(s0_start.len() as int) =~= w0.take(s0_start.len() as int));
            assert(s0_pending == Some((name, path)));
            assert forall|k: int| 0 <= k < self.all@.len() implies first_path(w, #[trigger] self.all@[k].0@)
                == Some(self.all@[k].1.path@) by {
                if k < k_new {
                    assert(self.all@[k] == s0_all[k]);
                    lemma_first_path_extend(w0, u, s0_all[k].0@);
                } else {
                    lemma_first_path_extend(w0, u, name@);
                }
            }
            assert forall|q: int| 0 <= q < self.head implies is_key(self.all@, (#[trigger] w[q]).0) || (
            self.pending matches Some(p) && p.0@ == w[q].0) by {
                assert(w[q] == w0[q]);
                if is_key(s0_all, w0[q].0) {
                    let i = choose|i: int| 0 <= i < key_texts(s0_all).len() && key_texts(s0_all)[i] == w0[q].0;
                    assert(key_texts(self.all@)[i] == w0[q].0);
                } else {
                    assert(key_texts(self.all@)[k_new] == w0[q].0);
                }
            }
            assert(self.paths_ok());
        }
        proof {
            let names = pair_names(self.queue@);
            let names0 = pair_names(s0_queue);
            let all = self.all@;
            assert forall|q: int| 0 <= q < names0.len() implies names[q] == names0[q] && self.origin@[q] == s0_origin[q] by {
                assert(self.queue@[q] == self.queue@.take(s0_queue.len() as int)[q]);
                assert(self.origin@[q] == self.origin@.take(s0_queue.len() as int)[q]);
            }
            assert forall|w: Seq<char>| names0.skip(head as int).contains(w) implies names.skip(head as int).contains(w) by {
                let i = choose|i: int| 0 <= i < names0.skip(head as int).len() && names0.skip(head as int)[i] == w;
                assert(names.skip(head as int)[i] == names0[head + i]);
            }
            assert forall|k: int| 0 <= k < k_new implies all[k] == s0_all[k] by {}
            // the awaited crate was taken from the queue
            let qp = choose|q: int| 0 <= q < head && names0[q] == e.0@ && s0_origin[q] < s0_all.len();
            assert(self.core_wf()) by {
                assert forall|q: int| 0 <= q < names.len() implies (#[trigger] self.origin@[q] == -1 && direct.contains(
                    names[q],
                )) || (0 <= self.origin@[q] < all.len() && dep_names(all[self.origin@[q]].1).contains(names[q])) by {
                    if q < names0.len() {
                        assert(names[q] == names0[q]);
                        assert(self.origin@[q] == s0_origin[q]);
                    }
                }
                assert forall|k: int| 0 <= k < all.len() implies direct.contains(#[trigger] all[k].0@)
                    || exists|m: int| 0 <= m < k && dep_names(all[m].1).contains(all[k].0@) by {
                    if k == k_new {
                        assert(names[qp] == names0[qp]);
                        if s0_origin[qp] != -1 {
                            let m = s0_origin[qp];
                            assert(dep_names(all[m].1).contains(all[k].0@));
                        }
                    } else {
                        assert(all[k] == s0_all[k]);
                        if !direct.contains(all[k].0@) {
                            let m = choose|m: int| 0 <= m < k && dep_names(s0_all[m].1).contains(s0_all[k].0@);
                            assert(all[m] == s0_all[m]);
                        }
                    }
                }
                assert forall|jj: int| 0 <= jj < direct.len() implies is_key(all, #[trigger] direct[jj])
                    || (self.pending matches Some(p) && p.0@ == direct[jj]) || names.skip(head as int).contains(direct[jj]) by {
                    if is_key(s0_all, direct[jj]) {
                        let i = choose|i: int| 0 <= i < key_texts(s0_all).len() && key_texts(s0_all)[i] == direct[jj];
                        assert(key_texts(all)[i] == direct[jj]);
                    } else if s0_pending matches Some(p) && p.0@ == direct[jj] {
                        assert(key_texts(all)[k_new] == direct[jj]);
                    }
                }
                assert forall|k: int, jj: int| 0 <= k < all.len() && 0 <= jj < dep_names(all[k].1).len() implies is_key(
                    all,
                    #[trigger] dep_names(all[k].1)[jj],
                ) || (self.pending matches Some(p) && p.0@ == dep_names(all[k].1)[jj])
                    || names.skip(head as int).contains(dep_names(all[k].1)[jj]) by {
                    if k < k_new {
                        let d = dep_names(s0_all[k].1)[jj];
                        if is_key(s0_all, d) {
                            let i = choose|i: int| 0 <= i < key_texts(s0_all).len() && key_texts(s0_all)[i] == d;
                            assert(key_texts(all)[i] == d);
                        } else if s0_pending matches Some(p) && p.0@ == d {
                            assert(key_texts(all)[k_new] == d);
                        }
                    } else {
                        assert(pair_names(sub_deps@)[jj] == dep_names(all[k].1)[jj]);
                    }
                }
            }
        }
    }

    /// The resolved crates.
    pub fn into_deps(self) -> (r: Vec<(String, DepInfo)>)
        ensures
            r@ == self.resolved(),
    {
        self.all
    }

    /// A crate that the starting dependencies name is resolved with the
    /// path of the first of them with its name, whatever path a crate
    /// resolved later gives it.
    pub proof fn law_direct_paths_win(&self)
        requires
            self.wf(),
        ensures
            forall|k: int, j: int|
                #![trigger self.resolved()[k], self.direct_pairs()[j]]
                0 <= k < self.resolved().len() && 0 <= j < self.direct_pairs().len()
                    && self.resolved()[k].0@ == self.direct_pairs()[j].0 && (forall|j2: int|
                    0 <= j2 < j ==> (#[trigger] self.direct_pairs()[j2]).0 != self.direct_pairs()[j].0)
                    ==> self.resolved()[k].1.path@ == self.direct_pairs()[j].1,
    {
        let w = pair_views(self.queue@);
        let st = self.start@;
        assert forall|k: int, j: int|
            #![trigger self.resolved()[k], self.direct_pairs()[j]]
            0 <= k < self.resolved().len() && 0 <= j < st.len() && self.resolved()[k].0@ == st[j].0
                && (forall|j2: int| 0 <= j2 < j ==> (#[trigger] st[j2]).0 != st[j].0)
                implies self.resolved()[k].1.path@ == st[j].1 by {
            assert(w[j] == w.take(st.len() as int)[j]);
            assert forall|q: int| 0 <= q < j implies (#[trigger] w[q]).0 != st[j].0 by {
                assert(w[q] == w.take(st.len() as int)[q]);
                assert(st[q].0 != st[j].0);
            }
            lemma_first_path_at(w, j, st[j].0);
            assert(first_path(w, self.all@[k].0@) == Some(self.all@[k].1.path@));
        }
    }

    /// When the resolution is complete, the resolved crates are exactly
    /// those reached from the starting dependencies along the dependencies
    /// of resolved crates, each once.
    pub proof fn law_resolved_least_closed(&self)
        requires
            self.wf(),
            self.complete(),
            self.each_named(),
        ensures
            key_texts(self.resolved()).no_duplicates(),
            key_texts(self.resolved()).to_set() == reached_set(self.direct_names(), self.resolved()),
    {
        let g = self.resolved();
        let d = self.direct_names();
        let kset = key_texts(g).to_set();
        let u = reached_set(d, g);
        assert(closed_under(g, kset)) by {
            assert forall|n: Seq<char>, j: int|
                kset.contains(n) && lookup(g, n) is Some && 0 <= j < dep_names(lookup(g, n)->0).len()
                    implies kset.contains(#[trigger] dep_names(lookup(g, n)->0)[j]) by {
                lemma_lookup(g, n);
                let k = choose|k: int| 0 <= k < g.len() && g[k].0@ == n && g[k].1 == lookup(g, n)->0;
                assert(is_key(g, dep_names(g[k].1)[j]));
            }
        }
        assert forall|m: Seq<char>| d.contains(m) implies #[trigger] kset.contains(m) by {
            let j = choose|j: int| 0 <= j < d.len() && d[j] == m;
            assert(is_key(g, d[j]));
        }
        assert forall|n: Seq<char>| u.contains(n) implies kset.contains(n) by {
            assert((forall|m: Seq<char>| d.contains(m) ==> #[trigger] kset.contains(m)) && closed_under(g, kset));
        }
        assert forall|n: Seq<char>| kset.contains(n) implies u.contains(n) by {
            let k = choose|k: int| 0 <= k < key_texts(g).len() && key_texts(g)[k] == n;
            assert forall|s: Set<Seq<char>>|
                (forall|m: Seq<char>| d.contains(m) ==> #[trigger] s.contains(m))
                    && #[trigger] closed_under(g, s) implies s.contains(n) by {
                lemma_named_reached(g, d, s, k);
            }
        }
        assert(kset =~= u);
    }
}

/// The names reached from `direct` along the dependencies that the table
/// knows: those in every set that holds them and is closed under the
/// table.
pub open spec fn reached_set(direct: Seq<Seq<char>>, g: Seq<(String, DepInfo)>) -> Set<Seq<char>> {
    Set::new(
        |n: Seq<char>|
            forall|s: Set<Seq<char>>|
                (forall|m: Seq<char>| direct.contains(m) ==> #[trigger] s.contains(m))
                    && #[trigger] closed_under(g, s) ==> s.contains(n),
    )
}

/// With distinct names, the table's entry for a crate's name is its own.
proof fn lemma_lookup_own(g: Seq<(String, DepInfo)>, m: int)
    requires
        key_texts(g).no_duplicates(),
        0 <= m < g.len(),
    ensures
        lookup(g, g[m].0@) == Some(g[m].1),
    decreases g.len(),
{
    if m > 0 {
        assert(key_texts(g)[0] != key_texts(g)[m]);
        assert(key_texts(g.drop_first()) =~= key_texts(g).drop_first());
        assert(g.drop_first()[m - 1] == g[m]);
        lemma_lookup_own(g.drop_first(), m - 1);
    }
}

/// Each crate named by the starting dependencies or by an earlier crate's
/// dependencies is in every closed set that holds the starting ones.
proof fn lemma_named_reached(g: Seq<(String, DepInfo)>, d: Seq<Seq<char>>, s: Set<Seq<char>>, k: int)
    requires
        key_texts(g).no_duplicates(),
        forall|k2: int|
            0 <= k2 < g.len() ==> d.contains(#[trigger] g[k2].0@) || exists|m: int|
                0 <= m < k2 && dep_names(g[m].1).contains(g[k2].0@),
        forall|m: Seq<char>| d.contains(m) ==> #[trigger] s.contains(m),
        closed_under(g, s),
        0 <= k < g.len(),
    ensures
        s.contains(g[k].0@),
    decreases k,
{
    if !d.contains(g[k].0@) {
        let m = choose|m: int| 0 <= m < k && dep_names(g[m].1).contains(g[k].0@);
        lemma_named_reached(g, d, s, m);
        lemma_lookup_own(g, m);
        let j = choose|j: int| 0 <= j < dep_names(g[m].1).len() && dep_names(g[m].1)[j] == g[k].0@;
        assert(s.contains(dep_names(lookup(g, g[m].0@)->0)[j]));
    }
}

/// A crate of the table has the name `n`.
fn contains_key_name(g: &Vec<(String, DepInfo)>, n: &String) -> (b: bool)
    ensures
        b == is_key(g@, n@),
{
    let mut i: usize = 0;
    while i < g.len()
        invariant
            i <= g@.len(),
            forall|k: int| 0 <= k < i ==> g@[k].0@ != n@,
        decreases g@.len() - i,
    {
        if g[i].0 == *n {
            assert(key_texts(g@)[i as int] == n@);
            return true;
        }
        i += 1;
    }
    assert forall|k: int| 0 <= k < key_texts(g@).len() implies key_texts(g@)[k] != n@ by {
        assert(key_texts(g@)[k] == g@[k].0@);
    }
    false
}

/// Crate `k` depends on no crate of the table.
pub open spec fn no_table_deps(g: Seq<(String, DepInfo)>, k: int) -> bool {
    deps_within(g, k, seq![])
}

/// The crates without dependencies in the table come first, in name order.
proof fn lemma_topological_roots(
    g: Seq<(String, DepInfo)>,
    tgs: Seq<Vec<usize>>,
    q: Seq<usize>,
    z: int,
    nv: Seq<Seq<char>>,
    r: Seq<String>,
)
    requires
        g.len() <= usize::MAX,
        key_texts(g).no_duplicates(),
        targets_ok(g, tgs),
        0 <= z <= q.len(),
        forall|p: int| 0 <= p < q.len() ==> #[trigger] q[p] < g.len(),
        forall|p: int| 0 <= p < q.len() ==> (p < z <==> tgs[#[trigger] q[p] as int]@.len() == 0),
        sorted_by_name(q.take(z), nv),
        nv.len() == g.len(),
        forall|i: int| 0 <= i < g.len() ==> #[trigger] nv[i] == key_texts(g)[i],
        r.len() == q.len(),
        forall|i: int| 0 <= i < q.len() ==> (#[trigger] r[i])@ == g[q[i] as int].0@,
    ensures
        forall|p: int, s: int, k1: int, k2: int|
            #![trigger r[p], r[s], key_texts(g)[k1], key_texts(g)[k2]]
            0 <= p < s < r.len() && 0 <= k1 < g.len() && 0 <= k2 < g.len() && r[p]@ == key_texts(g)[k1]
                && r[s]@ == key_texts(g)[k2] && no_table_deps(g, k2) ==> no_table_deps(g, k1)
                && lex_le(r[p]@, r[s]@),
{
    let kt = key_texts(g);
    assert forall|k: int| 0 <= k < g.len() implies (no_table_deps(g, k) <==> tgs[k]@.len() == 0) by {
        assert(target_ok(g, k, tgs[k]@));
        if tgs[k]@.len() > 0 {
            let t = tgs[k]@[0];
            let dn = dep_names(g[k].1);
            assert(dn.contains(kt[t as int]));
            let qq = choose|qq: int| 0 <= qq < dn.len() && dn[qq] == kt[t as int];
            assert(is_key(g, dn[qq]));
            assert(!Seq::<Seq<char>>::empty().contains(dn[qq]));
        } else {
            let dn = dep_names(g[k].1);
            assert forall|j: int| 0 <= j < dn.len() && is_key(g, #[trigger] dn[j]) implies Seq::<Seq<char>>::empty().contains(dn[j]) by {
                let jj = choose|jj: int| 0 <= jj < tgs[k]@.len() && kt[#[trigger] tgs[k]@[jj] as int] == dn[j];
            }
        }
    }
    assert forall|p: int, s: int, k1: int, k2: int|
        #![trigger r[p], r[s], key_texts(g)[k1], key_texts(g)[k2]]
        0 <= p < s < r.len() && 0 <= k1 < g.len() && 0 <= k2 < g.len() && r[p]@ == key_texts(g)[k1]
            && r[s]@ == key_texts(g)[k2] && no_table_deps(g, k2) implies no_table_deps(g, k1)
            && lex_le(r[p]@, r[s]@) by {
        assert(kt[q[p] as int] == kt[k1]);
        assert(q[p] as int == k1);
        assert(kt[q[s] as int] == kt[k2]);
        assert(q[s] as int == k2);
        assert(s < z);
        assert(q.take(z)[p] == q[p]);
        assert(q.take(z)[s] == q[s]);
        assert(lex_le(nv[q[p] as int], nv[q[s] as int]));
    }
}

/// What the finished ordering establishes, said of the crates' names.
proof fn lemma_topological_result(
    g: Seq<(String, DepInfo)>,
    tgs: Seq<Vec<usize>>,
    q: Seq<usize>,
    done: Seq<bool>,
    queued: Seq<bool>,
    r: Seq<String>,
)
    requires
        g.len() <= usize::MAX,
        key_texts(g).no_duplicates(),
        targets_ok(g, tgs),
        order_state(g.len(), tgs, q, q.len() as int, done, queued),
        forall|i: int| 0 <= i < g.len() && !(#[trigger] queued[i]) ==> !all_marked(tgs[i]@, done),
        r.len() == q.len(),
        forall|i: int| 0 <= i < q.len() ==> (#[trigger] r[i])@ == g[q[i] as int].0@,
    ensures
        texts(r).no_duplicates(),
        forall|p: int| 0 <= p < r.len() ==> is_key(g, #[trigger] r[p]@),
        forall|p: int, k: int|
            #![trigger r[p], key_texts(g)[k]]
            0 <= p < r.len() && 0 <= k < g.len() && r[p]@ == key_texts(g)[k] ==> deps_within(
                g,
                k,
                texts(r).take(p),
            ),
        forall|k: int|
            0 <= k < g.len() && deps_within(g, k, texts(r)) ==> texts(r).contains(
                #[trigger] key_texts(g)[k],
            ),
{
    let kt = key_texts(g);
    let rt = texts(r);
    assert(q.take(q.len() as int) =~= q);
    assert forall|i: int| 0 <= i < rt.len() implies #[trigger] rt[i] == kt[q[i] as int] by {}
    assert(rt.no_duplicates()) by {
        assert forall|i: int, j: int| 0 <= i < rt.len() && 0 <= j < rt.len() && i != j implies rt[i]
            != rt[j] by {
            assert(q[i] != q[j]);
            assert(kt[q[i] as int] != kt[q[j] as int]);
        }
    }
    assert forall|p: int| 0 <= p < r.len() implies is_key(g, #[trigger] r[p]@) by {
        assert(kt[q[p] as int] == r[p]@);
    }
    assert forall|p: int, k: int|
        #![trigger r[p], key_texts(g)[k]]
        0 <= p < r.len() && 0 <= k < g.len() && r[p]@ == key_texts(g)[k] implies deps_within(
        g,
        k,
        rt.take(p),
    ) by {
        assert(kt[q[p] as int] == kt[k]);
        assert(q[p] as int == k);
        assert(target_ok(g, k, tgs[k]@));
        let dn = dep_names(g[k].1);
        assert forall|j: int| 0 <= j < dn.len() && is_key(g, #[trigger] dn[j]) implies rt.take(
            p,
        ).contains(dn[j]) by {
            let jj = choose|jj: int| 0 <= jj < tgs[k]@.len() && kt[#[trigger] tgs[k]@[jj] as int] == dn[j];
            assert(q.take(p).contains(target(tgs, q[p], jj)));
            let rr = choose|rr: int| 0 <= rr < p && q.take(p)[rr] == target(tgs, q[p], jj);
            assert(rt.take(p)[rr] == dn[j]);
        }
    }
    assert forall|k: int|
        0 <= k < g.len() && deps_within(g, k, rt) implies rt.contains(#[trigger] kt[k]) by {
        if !queued[k] {
            assert(!all_marked(tgs[k]@, done));
            let jj = choose|jj: int| 0 <= jj < tgs[k]@.len() && !done[#[trigger] tgs[k]@[jj] as int];
            let t = tgs[k]@[jj];
            assert(target_ok(g, k, tgs[k]@));
            let dn = dep_names(g[k].1);
            assert(dn.contains(kt[t as int]));
            let qq = choose|qq: int| 0 <= qq < dn.len() && dn[qq] == kt[t as int];
            assert(is_key(g, dn[qq]));
            assert(rt.contains(dn[qq]));
            let i = choose|i: int| 0 <= i < rt.len() && rt[i] == dn[qq];
            assert(kt[q[i] as int] == kt[t as int]);
            assert(q[i] == t);
            assert(q.contains(t));
            assert(false);
        }
        assert(q.contains(k as usize));
        let i = choose|i: int| 0 <= i < q.len() && q[i] == k as usize;
        assert(q[i] as int == k);
        assert(rt[i] == kt[q[i] as int]);
    }
}

/// The position in `r` of the last name that `ds` holds; -1 when it
/// holds none.
pub open spec fn last_dep_index(r: Seq<Seq<char>>, ds: Seq<Seq<char>>) -> int
    decreases r.len(),
{
    if r.len() == 0 {
        -1
    } else if ds.contains(r.last()) {
        r.len() - 1
    } else {
        last_dep_index(r.drop_last(), ds)
    }
}

/// `b[p]` is where the last target of `q[p]` stands in `q` (-1 for a crate
/// without targets), below `head`; the crates come in the order of these
/// positions, and in name order where they are equal.
pub open spec fn batches_ok(
    tgs: Seq<Vec<usize>>,
    q: Seq<usize>,
    b: Seq<int>,
    nv: Seq<Seq<char>>,
    head: int,
) -> bool {
    &&& b.len() == q.len()
    &&& forall|p: int| 0 <= p < b.len() ==> -1 <= #[trigger] b[p] < head
    &&& forall|p: int|
        0 <= p < b.len() && #[trigger] b[p] >= 0 ==> tgs[q[p] as int]@.contains(q[b[p]])
    &&& forall|p: int, j: int|
        0 <= p < b.len() && 0 <= j < n_targets(tgs, q[p]) ==> q.take(b[p] + 1).contains(
            #[trigger] target(tgs, q[p], j),
        )
    &&& forall|i: int, j: int|
        0 <= i < j < b.len() ==> #[trigger] b[i] < #[trigger] b[j] || (b[i] == b[j] && lex_le(
            nv[q[i] as int],
            nv[q[j] as int],
        ))
}

proof fn lemma_last_dep_index(r: Seq<Seq<char>>, ds: Seq<Seq<char>>, m: int)
    requires
        -1 <= m < r.len(),
        m >= 0 ==> ds.contains(r[m]),
        forall|i: int| m < i < r.len() ==> !ds.contains(#[trigger] r[i]),
    ensures
        last_dep_index(r, ds) == m,
    decreases r.len(),
{
    if r.len() > 0 && m < r.len() - 1 {
        assert(!ds.contains(r[r.len() - 1]));
        lemma_last_dep_index(r.drop_last(), ds, m);
    }
}

/// A batch of crates made ready by the crate at position `head - 1`, in
/// name order, keeps the positions in order.
proof fn lemma_batches_extend(
    tgs: Seq<Vec<usize>>,
    q0: Seq<usize>,
    b0: Seq<int>,
    s: Seq<usize>,
    nv: Seq<Seq<char>>,
    head: int,
)
    requires
        batches_ok(tgs, q0, b0, nv, head - 1),
        1 <= head <= q0.len(),
        sorted_by_name(s, nv),
        forall|p: int, j: int|
            0 <= p < s.len() && 0 <= j < n_targets(tgs, s[p]) ==> q0.take(head).contains(
                #[trigger] target(tgs, s[p], j),
            ),
        forall|p: int| 0 <= p < s.len() ==> tgs[#[trigger] s[p] as int]@.contains(q0[head - 1]),
    ensures
        batches_ok(tgs, q0 + s, b0 + Seq::new(s.len(), |i: int| head - 1), nv, head),
{
    let q = q0 + s;
    let b = b0 + Seq::new(s.len(), |i: int| head - 1);
    assert forall|p: int| 0 <= p < b.len() implies -1 <= #[trigger] b[p] < head by {
        if p < b0.len() {
            assert(b[p] == b0[p]);
        }
    }
    assert forall|p: int| 0 <= p < b.len() && #[trigger] b[p] >= 0 implies tgs[q[p] as int]@.contains(
        q[b[p]],
    ) by {
        if p < b0.len() {
            assert(b[p] == b0[p]);
            assert(q[p] == q0[p]);
            assert(q[b[p]] == q0[b0[p]]);
        } else {
            assert(q[p] == s[p - q0.len()]);
            assert(q[b[p]] == q0[head - 1]);
        }
    }
    assert forall|p: int, j: int|
        0 <= p < b.len() && 0 <= j < n_targets(tgs, q[p]) implies q.take(b[p] + 1).contains(
        #[trigger] target(tgs, q[p], j),
    ) by {
        if p < b0.len() {
            assert(b[p] == b0[p]);
            assert(q[p] == q0[p]);
            assert(q0.take(b0[p] + 1).contains(target(tgs, q0[p], j)));
            assert(q.take(b[p] + 1) =~= q0.take(b0[p] + 1));
        } else {
            assert(q[p] == s[p - q0.len()]);
            assert(q0.take(head).contains(target(tgs, s[p - q0.len()], j)));
            assert(q.take(head) =~= q0.take(head));
        }
    }
    assert forall|i: int, j: int| 0 <= i < j < b.len() implies #[trigger] b[i] < #[trigger] b[j] || (
    b[i] == b[j] && lex_le(nv[q[i] as int], nv[q[j] as int])) by {
        if j < b0.len() {
            assert(b[i] == b0[i] && b[j] == b0[j]);
            assert(q[i] == q0[i] && q[j] == q0[j]);
        } else if i < b0.len() {
            assert(b[i] == b0[i]);
        } else {
            assert(q[i] == s[i - q0.len()] && q[j] == s[j - q0.len()]);
        }
    }
}

/// Some ordering of names holds every crate of the table and puts each
/// after the crates of the table it depends on: the dependency graph has
/// no cycle (a crate that depends on itself is a cycle).
pub open spec fn acyclic(g: Seq<(String, DepInfo)>) -> bool {
    exists|o: Seq<Seq<char>>|
        #![trigger o.len()]
        (forall|k: int| 0 <= k < g.len() ==> o.contains(#[trigger] key_texts(g)[k])) && (forall|
            q: int,
            k: int,
        |
            #![trigger o[q], key_texts(g)[k]]
            0 <= q < o.len() && 0 <= k < g.len() && o[q] == key_texts(g)[k] ==> deps_within(
                g,
                k,
                o.take(q),
            ))
}

/// A result closed under ready crates holds every crate that an order
/// without cycles reaches.
proof fn lemma_order_in_result(g: Seq<(String, DepInfo)>, rt: Seq<Seq<char>>, o: Seq<Seq<char>>, p: int)
    requires
        forall|k: int|
            0 <= k < g.len() && deps_within(g, k, rt) ==> rt.contains(#[trigger] key_texts(g)[k]),
        forall|q: int, k: int|
            #![trigger o[q], key_texts(g)[k]]
            0 <= q < o.len() && 0 <= k < g.len() && o[q] == key_texts(g)[k] ==> deps_within(
                g,
                k,
                o.take(q),
            ),
        0 <= p < o.len(),
    ensures
        forall|k: int| 0 <= k < g.len() && o[p] == #[trigger] key_texts(g)[k] ==> rt.contains(key_texts(g)[k]),
    decreases p,
{
    let kt = key_texts(g);
    assert forall|k: int| 0 <= k < g.len() && o[p] == #[trigger] kt[k] implies rt.contains(kt[k]) by {
        assert(deps_within(g, k, o.take(p)));
        let dn = dep_names(g[k].1);
        assert forall|j: int| 0 <= j < dn.len() && is_key(g, #[trigger] dn[j]) implies rt.contains(dn[j]) by {
            assert(o.take(p).contains(dn[j]));
            let q = choose|q: int| 0 <= q < o.take(p).len() && o.take(p)[q] == dn[j];
            let k2 = choose|k2: int| 0 <= k2 < kt.len() && kt[k2] == dn[j];
            assert(o[q] == kt[k2]);
            lemma_order_in_result(g, rt, o, q);
        }
        assert(deps_within(g, k, rt));
    }
}

/// In the finished ordering, `b[p]` is the position of the last
/// dependency of the crate at `p`.
proof fn lemma_batches_result(
    g: Seq<(String, DepInfo)>,
    tgs: Seq<Vec<usize>>,
    q: Seq<usize>,
    b: Seq<int>,
    nv: Seq<Seq<char>>,
    r: Seq<String>,
)
    requires
        key_texts(g).no_duplicates(),
        targets_ok(g, tgs),
        batches_ok(tgs, q, b, nv, q.len() as int),
        q.no_duplicates(),
        forall|p: int| 0 <= p < q.len() ==> #[trigger] q[p] < g.len(),
        r.len() == q.len(),
        forall|i: int| 0 <= i < q.len() ==> (#[trigger] r[i])@ == g[q[i] as int].0@,
    ensures
        forall|p: int|
            0 <= p < q.len() ==> last_dep_index(texts(r), dep_names(g[#[trigger] q[p] as int].1))
                == b[p],
{
    let kt = key_texts(g);
    let rt = texts(r);
    assert forall|i: int| 0 <= i < rt.len() implies #[trigger] rt[i] == kt[q[i] as int] by {}
    assert forall|p: int| 0 <= p < q.len() implies last_dep_index(
        rt,
        dep_names(g[#[trigger] q[p] as int].1),
    ) == b[p] by {
        let k = q[p] as int;
        let ds = dep_names(g[k].1);
        assert(target_ok(g, k, tgs[k]@));
        assert(-1 <= b[p] < q.len());
        if b[p] >= 0 {
            assert(tgs[k]@.contains(q[b[p]]));
            let jj = choose|jj: int| 0 <= jj < tgs[k]@.len() && tgs[k]@[jj] == q[b[p]];
            assert(ds.contains(kt[tgs[k]@[jj] as int]));
            assert(rt[b[p]] == kt[q[b[p]] as int]);
        }
        assert forall|i: int| b[p] < i < rt.len() implies !ds.contains(#[trigger] rt[i]) by {
            if ds.contains(rt[i]) {
                let qq = choose|qq: int| 0 <= qq < ds.len() && ds[qq] == rt[i];
                assert(is_key(g, ds[qq])) by {
                    assert(kt[q[i] as int] == ds[qq]);
                }
                let jj = choose|jj: int|
                    0 <= jj < tgs[k]@.len() && kt[#[trigger] tgs[k]@[jj] as int] == ds[qq];
                assert(tgs[k]@[jj] == q[i]);
                assert(target(tgs, q[p], jj) == q[i]);
                assert(q.take(b[p] + 1).contains(q[i]));
                let ii = choose|ii: int| 0 <= ii < b[p] + 1 && #[trigger] q.take(b[p] + 1)[ii] == q[i];
                assert(q[ii] == q[i]);
            }
        }
        lemma_last_dep_index(rt, ds, b[p]);
    }
}

// ---------------------------------------------------------------------
// The ordering as a property of names and dependency sets
// ---------------------------------------------------------------------

pub proof fn lemma_lex_antisym(a: Seq<char>, b: Seq<char>)
    requires
        lex_le(a, b),
        lex_le(b, a),
    ensures
        a == b,
    decreases a.len(),
{
    if a.len() > 0 && b.len() > 0 {
        lemma_lex_antisym(a.drop_first(), b.drop_first());
        assert(a =~= seq![a[0]] + a.drop_first());
        assert(b =~= seq![b[0]] + b.drop_first());
    } else {
        assert(a =~= b);
    }
}

/// The crates of the table that crate `n` depends on.
pub open spec fn table_deps(g: Seq<(String, DepInfo)>, n: Seq<char>) -> Set<Seq<char>> {
    Set::new(
        |d: Seq<char>|
            is_key(g, d) && exists|k: int|
                0 <= k < g.len() && #[trigger] g[k].0@ == n && dep_names(g[k].1).contains(d),
    )
}

/// The position in `r` of the last name that `s` holds; -1 when it holds
/// none.
pub open spec fn last_in(r: Seq<Seq<char>>, s: Set<Seq<char>>) -> int
    decreases r.len(),
{
    if r.len() == 0 {
        -1
    } else if s.contains(r.last()) {
        r.len() - 1
    } else {
        last_in(r.drop_last(), s)
    }
}

/// `r` is an order of the table's crates as `topological_sort` makes it:
/// no name twice, each a crate of the table that comes after its
/// dependencies, every crate whose dependencies all come in it, and the
/// crates in the order of the position of their last dependency, then of
/// their names.
pub open spec fn topo_order(g: Seq<(String, DepInfo)>, r: Seq<Seq<char>>) -> bool {
    &&& r.no_duplicates()
    &&& forall|p: int| 0 <= p < r.len() ==> is_key(g, #[trigger] r[p])
    &&& forall|p: int, d: Seq<char>|
        0 <= p < r.len() && #[trigger] table_deps(g, r[p]).contains(d) ==> r.take(p).contains(d)
    &&& forall|n: Seq<char>|
        #[trigger] is_key(g, n) && (forall|d: Seq<char>| #[trigger] table_deps(g, n).contains(d) ==> r.contains(d))
            ==> r.contains(n)
    &&& forall|p: int, s: int|
        0 <= p < s < r.len() ==> last_in(r, table_deps(g, #[trigger] r[p])) < last_in(
            r,
            table_deps(g, #[trigger] r[s]),
        ) || (last_in(r, table_deps(g, r[p])) == last_in(r, table_deps(g, r[s])) && lex_le(r[p], r[s]))
}

/// The two tables have the same crates, and each crate depends on the same
/// crates of the table in both.
pub open spec fn same_graph(g1: Seq<(String, DepInfo)>, g2: Seq<(String, DepInfo)>) -> bool {
    &&& forall|n: Seq<char>| #[trigger] is_key(g1, n) == is_key(g2, n)
    &&& forall|n: Seq<char>| is_key(g1, n) ==> #[trigger] table_deps(g1, n) == table_deps(g2, n)
}

proof fn lemma_last_index_in(r: Seq<Seq<char>>, ds: Seq<Seq<char>>, s: Set<Seq<char>>)
    requires
        forall|i: int| 0 <= i < r.len() ==> (ds.contains(#[trigger] r[i]) == s.contains(r[i])),
    ensures
        last_dep_index(r, ds) == last_in(r, s),
    decreases r.len(),
{
    if r.len() > 0 {
        assert(ds.contains(r[r.len() - 1]) == s.contains(r[r.len() - 1]));
        lemma_last_index_in(r.drop_last(), ds, s);
    }
}

/// `last_in` only looks at where the set's names stand.
proof fn lemma_last_in_take(r: Seq<Seq<char>>, s: Set<Seq<char>>, m: int)
    requires
        0 <= m <= r.len(),
        forall|i: int| m <= i < r.len() ==> !s.contains(#[trigger] r[i]),
    ensures
        last_in(r, s) == last_in(r.take(m), s),
    decreases r.len(),
{
    if r.len() > m {
        assert(!s.contains(r[r.len() - 1]));
        assert(r.drop_last().take(m) =~= r.take(m));
        lemma_last_in_take(r.drop_last(), s, m);
    } else {
        assert(r.take(m) =~= r);
    }
}

/// A set whose names all stand in the first `p` of a sequence without
/// repeats: `last_in` looks at those first `p` only.
proof fn lemma_last_in_prefix(r: Seq<Seq<char>>, s: Set<Seq<char>>, p: int)
    requires
        0 <= p <= r.len(),
        r.no_duplicates(),
        forall|d: Seq<char>| #[trigger] s.contains(d) ==> r.take(p).contains(d),
    ensures
        last_in(r, s) == last_in(r.take(p), s),
{
    assert forall|i: int| p <= i < r.len() implies !s.contains(#[trigger] r[i]) by {
        if s.contains(r[i]) {
            let q = choose|q: int| 0 <= q < r.take(p).len() && r.take(p)[q] == r[i];
            assert(r[q] == r[i]);
        }
    }
    lemma_last_in_take(r, s, p);
}

/// Each name of one such order stands in the other.
proof fn lemma_topo_in_other(g: Seq<(String, DepInfo)>, r1: Seq<Seq<char>>, r2: Seq<Seq<char>>, p: int)
    requires
        topo_order(g, r1),
        topo_order(g, r2),
        0 <= p < r1.len(),
    ensures
        r2.contains(r1[p]),
    decreases p,
{
    let n = r1[p];
    assert forall|d: Seq<char>| #[trigger] table_deps(g, n).contains(d) implies r2.contains(d) by {
        assert(r1.take(p).contains(d));
        let q = choose|q: int| 0 <= q < r1.take(p).len() && r1.take(p)[q] == d;
        assert(r1[q] == d);
        lemma_topo_in_other(g, r1, r2, q);
    }
    assert(is_key(g, n));
}

/// Two such orders that agree on their first `p` names agree on the next.
proof fn lemma_topo_step(g: Seq<(String, DepInfo)>, r1: Seq<Seq<char>>, r2: Seq<Seq<char>>, p: int)
    requires
        topo_order(g, r1),
        topo_order(g, r2),
        0 <= p < r1.len(),
        p < r2.len(),
        r1.take(p) == r2.take(p),
    ensures
        r1[p] == r2[p],
{
    let a = r1[p];
    let b = r2[p];
    if a != b {
        lemma_topo_in_other(g, r1, r2, p);
        lemma_topo_in_other(g, r2, r1, p);
        let s2 = choose|s2: int| 0 <= s2 < r2.len() && r2[s2] == a;
        let s1 = choose|s1: int| 0 <= s1 < r1.len() && r1[s1] == b;
        if s2 < p {
            assert(r1[s2] == r1.take(p)[s2]);
            assert(r2.take(p)[s2] == r2[s2]);
        }
        if s1 < p {
            assert(r2[s1] == r2.take(p)[s1]);
            assert(r1.take(p)[s1] == r1[s1]);
        }
        let ta = table_deps(g, a);
        let tb = table_deps(g, b);
        assert forall|d: Seq<char>| #[trigger] ta.contains(d) implies r1.take(p).contains(d) by {}
        assert forall|d: Seq<char>| #[trigger] tb.contains(d) implies r2.take(p).contains(d) by {}
        assert forall|d: Seq<char>| #[trigger] ta.contains(d) implies r2.take(p).contains(d) by {
            assert(r1.take(p).contains(d));
        }
        assert forall|d: Seq<char>| #[trigger] tb.contains(d) implies r1.take(p).contains(d) by {
            assert(r2.take(p).contains(d));
        }
        lemma_last_in_prefix(r1, ta, p);
        lemma_last_in_prefix(r2, ta, p);
        lemma_last_in_prefix(r1, tb, p);
        lemma_last_in_prefix(r2, tb, p);
        assert(last_in(r1, table_deps(g, r1[p])) < last_in(r1, table_deps(g, r1[s1])) || (last_in(
            r1,
            table_deps(g, r1[p]),
        ) == last_in(r1, table_deps(g, r1[s1])) && lex_le(r1[p], r1[s1])));
        assert(last_in(r2, table_deps(g, r2[p])) < last_in(r2, table_deps(g, r2[s2])) || (last_in(
            r2,
            table_deps(g, r2[p]),
        ) == last_in(r2, table_deps(g, r2[s2])) && lex_le(r2[p], r2[s2])));
        lemma_lex_antisym(a, b);
    }
}

/// Two such orders agree on their common length.
proof fn lemma_topo_prefix(g: Seq<(String, DepInfo)>, r1: Seq<Seq<char>>, r2: Seq<Seq<char>>, p: int, m: int)
    requires
        topo_order(g, r1),
        topo_order(g, r2),
        0 <= p <= m,
        m <= r1.len(),
        m <= r2.len(),
        r1.take(p) == r2.take(p),
    ensures
        r1.take(m) == r2.take(m),
    decreases m - p,
{
    if p < m {
        lemma_topo_step(g, r1, r2, p);
        assert(r1.take(p + 1) =~= r1.take(p).push(r1[p]));
        assert(r2.take(p + 1) =~= r2.take(p).push(r2[p]));
        lemma_topo_prefix(g, r1, r2, p + 1, m);
    }
}

/// Two such orders of one table are the same.
proof fn lemma_topo_unique(g: Seq<(String, DepInfo)>, r1: Seq<Seq<char>>, r2: Seq<Seq<char>>)
    requires
        topo_order(g, r1),
        topo_order(g, r2),
    ensures
        r1 == r2,
{
    let m: int = if r1.len() < r2.len() {
        r1.len() as int
    } else {
        r2.len() as int
    };
    assert(r1.take(0) =~= r2.take(0));
    lemma_topo_prefix(g, r1, r2, 0, m);
    if r1.len() < r2.len() {
        lemma_topo_in_other(g, r2, r1, m);
        let q = choose|q: int| 0 <= q < r1.len() && r1[q] == r2[m];
        assert(r1.take(m) =~= r1);
        assert(r2.take(m)[q] == r2[q]);
    } else if r2.len() < r1.len() {
        lemma_topo_in_other(g, r1, r2, m);
        let q = choose|q: int| 0 <= q < r2.len() && r2[q] == r1[m];
        assert(r2.take(m) =~= r2);
        assert(r1.take(m)[q] == r1[q]);
    } else {
        assert(r1 =~= r1.take(m));
        assert(r2 =~= r2.take(m));
    }
}

/// `topological_sort`'s order depends only on the crates' names and the
/// crates of the table each depends on: two tables with the same crates
/// and the same dependencies within the table have the same order, however
/// their entries and dependency lists are ordered, repeated, or hold names
/// not in the table, and whatever their paths.
pub proof fn law_topological_order_depends_on_graph_only(
    g1: Seq<(String, DepInfo)>,
    g2: Seq<(String, DepInfo)>,
    r1: Seq<Seq<char>>,
    r2: Seq<Seq<char>>,
)
    requires
        same_graph(g1, g2),
        topo_order(g1, r1),
        topo_order(g2, r2),
    ensures
        r1 == r2,
{
    assert(topo_order(g2, r1)) by {
        assert forall|p: int| 0 <= p < r1.len() implies is_key(g2, #[trigger] r1[p]) by {
            assert(is_key(g1, r1[p]));
        }
        assert forall|p: int, d: Seq<char>|
            0 <= p < r1.len() && #[trigger] table_deps(g2, r1[p]).contains(d) implies r1.take(p).contains(d) by {
            assert(is_key(g1, r1[p]));
            assert(table_deps(g1, r1[p]) == table_deps(g2, r1[p]));
        }
        assert forall|n: Seq<char>|
            #[trigger] is_key(g2, n) && (forall|d: Seq<char>| #[trigger] table_deps(g2, n).contains(d) ==> r1.contains(d))
                implies r1.contains(n) by {
            assert(is_key(g1, n));
            assert(table_deps(g1, n) == table_deps(g2, n));
            assert forall|d: Seq<char>| #[trigger] table_deps(g1, n).contains(d) implies r1.contains(d) by {
                assert(table_deps(g2, n).contains(d));
            }
        }
        assert forall|p: int, s: int| 0 <= p < s < r1.len() implies last_in(r1, table_deps(g2, #[trigger] r1[p]))
            < last_in(r1, table_deps(g2, #[trigger] r1[s])) || (last_in(r1, table_deps(g2, r1[p])) == last_in(
            r1,
            table_deps(g2, r1[s]),
        ) && lex_le(r1[p], r1[s])) by {
            assert(is_key(g1, r1[p]));
            assert(is_key(g1, r1[s]));
            assert(table_deps(g1, r1[p]) == table_deps(g2, r1[p]));
            assert(table_deps(g1, r1[s]) == table_deps(g2, r1[s]));
        }
    }
    lemma_topo_unique(g2, r1, r2);
}

/// With distinct names, the crates that crate `k` depends on within the
/// table are its dependency names that are crates of the table.
proof fn lemma_table_deps_at(g: Seq<(String, DepInfo)>, k: int, d: Seq<char>)
    requires
        key_texts(g).no_duplicates(),
        0 <= k < g.len(),
    ensures
        table_deps(g, key_texts(g)[k]).contains(d) == (is_key(g, d) && dep_names(g[k].1).contains(d)),
{
    let n = key_texts(g)[k];
    if table_deps(g, n).contains(d) {
        let k2 = choose|k2: int| 0 <= k2 < g.len() && #[trigger] g[k2].0@ == n && dep_names(g[k2].1).contains(d);
        assert(key_texts(g)[k2] == key_texts(g)[k]);
    }
    if is_key(g, d) && dep_names(g[k].1).contains(d) {
        assert(g[k].0@ == n);
    }
}

/// What `topological_sort` ensures, said of names and dependency sets.
proof fn lemma_topo_order_of_result(g: Seq<(String, DepInfo)>, rt: Seq<Seq<char>>)
    requires
        key_texts(g).no_duplicates(),
        rt.no_duplicates(),
        forall|p: int| 0 <= p < rt.len() ==> is_key(g, #[trigger] rt[p]),
        forall|p: int, k: int|
            #![trigger rt[p], key_texts(g)[k]]
            0 <= p < rt.len() && 0 <= k < g.len() && rt[p] == key_texts(g)[k] ==> deps_within(g, k, rt.take(p)),
        forall|k: int| 0 <= k < g.len() && deps_within(g, k, rt) ==> rt.contains(#[trigger] key_texts(g)[k]),
        forall|p: int, s: int, k1: int, k2: int|
            #![trigger rt[p], rt[s], key_texts(g)[k1], key_texts(g)[k2]]
            0 <= p < s < rt.len() && 0 <= k1 < g.len() && 0 <= k2 < g.len() && rt[p] == key_texts(g)[k1]
                && rt[s] == key_texts(g)[k2] ==> last_dep_index(rt, dep_names(g[k1].1)) < last_dep_index(
                rt,
                dep_names(g[k2].1),
            ) || (last_dep_index(rt, dep_names(g[k1].1)) == last_dep_index(rt, dep_names(g[k2].1))
                && lex_le(rt[p], rt[s])),
    ensures
        topo_order(g, rt),
{
    let kt = key_texts(g);
    assert forall|p: int, d: Seq<char>|
        0 <= p < rt.len() && #[trigger] table_deps(g, rt[p]).contains(d) implies rt.take(p).contains(d) by {
        assert(is_key(g, rt[p]));
        let k = choose|k: int| 0 <= k < kt.len() && kt[k] == rt[p];
        lemma_table_deps_at(g, k, d);
        assert(deps_within(g, k, rt.take(p)));
        let j = choose|j: int| 0 <= j < dep_names(g[k].1).len() && dep_names(g[k].1)[j] == d;
        assert(is_key(g, dep_names(g[k].1)[j]));
    }
    assert forall|n: Seq<char>|
        #[trigger] is_key(g, n) && (forall|d: Seq<char>| #[trigger] table_deps(g, n).contains(d) ==> rt.contains(d))
            implies rt.contains(n) by {
        let k = choose|k: int| 0 <= k < kt.len() && kt[k] == n;
        assert forall|j: int|
            0 <= j < dep_names(g[k].1).len() && is_key(g, #[trigger] dep_names(g[k].1)[j]) implies rt.contains(
            dep_names(g[k].1)[j],
        ) by {
            lemma_table_deps_at(g, k, dep_names(g[k].1)[j]);
            assert(table_deps(g, n).contains(dep_names(g[k].1)[j]));
        }
        assert(deps_within(g, k, rt));
    }
    assert forall|p: int, s: int| 0 <= p < s < rt.len() implies last_in(rt, table_deps(g, #[trigger] rt[p]))
        < last_in(rt, table_deps(g, #[trigger] rt[s])) || (last_in(rt, table_deps(g, rt[p])) == last_in(
        rt,
        table_deps(g, rt[s]),
    ) && lex_le(rt[p], rt[s])) by {
        assert(is_key(g, rt[p]));
        assert(is_key(g, rt[s]));
        let k1 = choose|k1: int| 0 <= k1 < kt.len() && kt[k1] == rt[p];
        let k2 = choose|k2: int| 0 <= k2 < kt.len() && kt[k2] == rt[s];
        assert forall|i: int| 0 <= i < rt.len() implies (dep_names(g[k1].1).contains(#[trigger] rt[i])
            == table_deps(g, rt[p]).contains(rt[i])) by {
            lemma_table_deps_at(g, k1, rt[i]);
        }
        assert forall|i: int| 0 <= i < rt.len() implies (dep_names(g[k2].1).contains(#[trigger] rt[i])
            == table_deps(g, rt[s]).contains(rt[i])) by {
            lemma_table_deps_at(g, k2, rt[i]);
        }
        lemma_last_index_in(rt, dep_names(g[k1].1), table_deps(g, rt[p]));
        lemma_last_index_in(rt, dep_names(g[k2].1), table_deps(g, rt[s]));
    }
}

/// Sorts the local crates so that each comes after the crates of the
/// table it depends on (Kahn's algorithm; the crates that become ready
/// together are taken in name order). Crates on or behind a dependency
/// cycle are left out, so every crate is placed exactly when the
/// dependency graph has no cycle. The crates without dependencies in the table come
/// first, in name order; the others follow in the order of the position
/// of their last dependency, in name order where it is the same.
pub fn topological_sort(deps: &Vec<(String, DepInfo)>) -> (r: Vec<String>)
    requires
        key_texts(deps@).no_duplicates(),
    ensures
        texts(r@).no_duplicates(),
        forall|p: int| 0 <= p < r@.len() ==> is_key(deps@, #[trigger] r@[p]@),
        forall|p: int, k: int|
            #![trigger r@[p], key_texts(deps@)[k]]
            0 <= p < r@.len() && 0 <= k < deps@.len() && r@[p]@ == key_texts(deps@)[k]
                ==> deps_within(deps@, k, texts(r@).take(p)),
        forall|k: int|
            0 <= k < deps@.len() && deps_within(deps@, k, texts(r@)) ==> texts(r@).contains(
                #[trigger] key_texts(deps@)[k],
            ),
        forall|p: int, s: int, k1: int, k2: int|
            #![trigger r@[p], r@[s], key_texts(deps@)[k1], key_texts(deps@)[k2]]
            0 <= p < s < r@.len() && 0 <= k1 < deps@.len() && 0 <= k2 < deps@.len() && r@[p]@
                == key_texts(deps@)[k1] && r@[s]@ == key_texts(deps@)[k2] && no_table_deps(deps@, k2)
                ==> no_table_deps(deps@, k1) && lex_le(r@[p]@, r@[s]@),
        forall|p: int, s: int, k1: int, k2: int|
            #![trigger r@[p], r@[s], key_texts(deps@)[k1], key_texts(deps@)[k2]]
            0 <= p < s < r@.len() && 0 <= k1 < deps@.len() && 0 <= k2 < deps@.len() && r@[p]@
                == key_texts(deps@)[k1] && r@[s]@ == key_texts(deps@)[k2] ==> last_dep_index(
                texts(r@),
                dep_names(deps@[k1].1),
            ) < last_dep_index(texts(r@), dep_names(deps@[k2].1)) || (last_dep_index(
                texts(r@),
                dep_names(deps@[k1].1),
            ) == last_dep_index(texts(r@), dep_names(deps@[k2].1)) && lex_le(r@[p]@, r@[s]@)),
        (forall|k: int| 0 <= k < deps@.len() ==> texts(r@).contains(#[trigger] key_texts(deps@)[k]))
            <==> acyclic(deps@),
        topo_order(deps@, texts(r@)),
{
    let n = deps.len();
    let ghost g = deps@;
    let ghost kt = key_texts(g);
    let mut names: Vec<Vec<char>> = Vec::new();
    let mut tgs: Vec<Vec<usize>> = Vec::new();
    let mut done: Vec<bool> = Vec::new();
    let mut queued: Vec<bool> = Vec::new();
    let mut init: Vec<usize> = Vec::new();
    let mut k: usize = 0;
    while k < n
        invariant
            k <= n,
            n == g.len(),
            g == deps@,
            kt == key_texts(g),
            names@.len() == k,
            forall|i: int| 0 <= i < k ==> (#[trigger] names@[i])@ == kt[i],
            tgs@.len() == k,
            forall|i: int| 0 <= i < k ==> target_ok(g, i, #[trigger] tgs@[i]@),
            done@.len() == k,
            forall|i: int| 0 <= i < k ==> !(#[trigger] done@[i]),
            queued@.len() == k,
            forall|i: int| 0 <= i < k ==> (#[trigger] queued@[i] <==> init@.contains(i as usize)),
            forall|i: int| 0 <= i < k ==> (#[trigger] queued@[i] <==> tgs@[i]@.len() == 0),
            init@.no_duplicates(),
            forall|p: int| 0 <= p < init@.len() ==> #[trigger] init@[p] < k,
        decreases n - k,
    {
        names.push(crate::text::chars_of(deps[k].0.as_str()));
        let tg = key_targets(deps, k);
        let ready = tg.len() == 0;
        tgs.push(tg);
        done.push(false);
        queued.push(ready);
        if ready {
            init.push(k);
        }
        k += 1;
    }
    proof {
        assert forall|i: int, j: int| 0 <= i < n && 0 <= j < tgs@[i]@.len() implies #[trigger] tgs@[i]@[j]
            < n by {
            assert(target_ok(g, i, tgs@[i]@));
        }
    }
    let mut queue = sort_by_name(&init, &names);
    let ghost roots = queue@;
    let ghost z = queue@.len() as int;
    let ghost nv = crate::text::views(names@);
    let ghost mut b: Seq<int> = Seq::new(z as nat, |i: int| -1int);
    let mut head: usize = 0;
    proof {
        assert(queue@.take(z) =~= roots);
        assert forall|p: int| 0 <= p < queue@.len() implies (p < z <==> tgs@[#[trigger] queue@[p] as int]@.len() == 0) by {
            assert(init@.contains(queue@[p]));
            assert(queued@[queue@[p] as int]);
        }
        lemma_distinct_below(queue@, n as nat);
        assert(queue@.take(0) =~= Seq::<usize>::empty());
        assert forall|i: int| 0 <= i < n && !(#[trigger] queued@[i]) implies !all_marked(
            tgs@[i]@,
            done@,
        ) by {
            assert(!done@[tgs@[i]@[0] as int]);
        }
        assert forall|p: int| 0 <= p < queue@.len() implies tgs@[#[trigger] queue@[p] as int]@.len()
            == 0 by {
            assert(init@.contains(queue@[p]));
            assert(queued@[queue@[p] as int]);
        }
        assert(order_state(n as nat, tgs@, queue@, head as int, done@, queued@));
        assert forall|p: int, j: int|
            0 <= p < b.len() && 0 <= j < n_targets(tgs@, queue@[p]) implies queue@.take(b[p] + 1).contains(
            #[trigger] target(tgs@, queue@[p], j),
        ) by {
            assert(tgs@[queue@[p] as int]@.len() == 0);
        }
        assert forall|i: int, j: int| 0 <= i < j < b.len() implies #[trigger] b[i] < #[trigger] b[j] || (
        b[i] == b[j] && lex_le(nv[queue@[i] as int], nv[queue@[j] as int])) by {
            assert(queue@.take(z)[i] == queue@[i] && queue@.take(z)[j] == queue@[j]);
        }
        assert(batches_ok(tgs@, queue@, b, nv, head as int));
    }
    while head < queue.len()
        invariant
            n == g.len(),
            g == deps@,
            kt == key_texts(g),
            names@.len() == n,
            targets_ok(g, tgs@),
            order_state(n as nat, tgs@, queue@, head as int, done@, queued@),
            forall|i: int| 0 <= i < n && !(#[trigger] queued@[i]) ==> !all_marked(tgs@[i]@, done@),
            forall|i: int| 0 <= i < n ==> (#[trigger] names@[i])@ == kt[i],
            forall|i: int| 0 <= i < n && tgs@[i]@.len() == 0 ==> #[trigger] queued@[i],
            0 <= z <= queue@.len(),
            queue@.take(z) == roots,
            sorted_by_name(roots, crate::text::views(names@)),
            forall|p: int| 0 <= p < queue@.len() ==> (p < z <==> tgs@[#[trigger] queue@[p] as int]@.len() == 0),
            nv == crate::text::views(names@),
            batches_ok(tgs@, queue@, b, nv, head as int),
        decreases n - head,
    {
        let x = queue[head];
        let ghost done0 = done@;
        head += 1;
        done.set(x, true);
        assert(queue@.take(head as int) =~= queue@.take(head - 1).push(x));
        let next = ready_crates(&tgs, &done, &queued);
        let sorted = sort_by_name(&next, &names);
        let ghost q0 = queue@;
        let ghost queued0 = queued@;
        let mut m: usize = 0;
        while m < sorted.len()
            invariant
                m <= sorted@.len(),
                queue@ == q0 + sorted@.take(m as int),
                queued@.len() == n,
                forall|p: int| 0 <= p < sorted@.len() ==> #[trigger] sorted@[p] < n,
                forall|i: int|
                    0 <= i < n ==> (#[trigger] queued@[i] <==> (queued0[i] || sorted@.take(
                        m as int,
                    ).contains(i as usize))),
            decreases sorted@.len() - m,
        {
            let s = sorted[m];
            queue.push(s);
            queued.set(s, true);
            assert(sorted@.take(m + 1) =~= sorted@.take(m as int).push(s));
            m += 1;
        }
        proof {
            assert(sorted@.take(m as int) =~= sorted@);
            assert forall|p: int| 0 <= p < sorted@.len() implies !q0.contains(#[trigger] sorted@[p]) by {
                assert(next@.contains(sorted@[p]));
            }
            vstd::seq_lib::lemma_no_dup_in_concat(q0, sorted@);
            lemma_distinct_below(queue@, n as nat);
            assert(queue@.take(head as int) =~= q0.take(head as int));
            assert forall|p: int, j: int|
                0 <= p < sorted@.len() && 0 <= j < n_targets(tgs@, sorted@[p]) implies q0.take(
                head as int,
            ).contains(#[trigger] target(tgs@, sorted@[p], j)) by {
                assert(next@.contains(sorted@[p]));
                assert(all_marked(tgs@[sorted@[p] as int]@, done@));
            }
            lemma_order_extend(tgs@, q0, sorted@, head as int);
            assert forall|p: int| 0 <= p < sorted@.len() implies tgs@[#[trigger] sorted@[p] as int]@.contains(
                q0[head - 1],
            ) by {
                let y = sorted@[p];
                assert(next@.contains(y));
                let pn = choose|pn: int| 0 <= pn < next@.len() && next@[pn] == y;
                assert(!queued0[next@[pn] as int]);
                assert(all_marked(tgs@[next@[pn] as int]@, done@));
                assert(!all_marked(tgs@[y as int]@, done0));
                let jj = choose|jj: int| 0 <= jj < tgs@[y as int]@.len() && !done0[#[trigger] tgs@[y as int]@[jj] as int];
                assert(done@[tgs@[y as int]@[jj] as int]);
            }
            lemma_batches_extend(tgs@, q0, b, sorted@, nv, head as int);
            b = b + Seq::new(sorted@.len(), |i: int| head - 1);
            assert forall|i: int| 0 <= i < n && !(#[trigger] queued@[i]) implies !all_marked(
                tgs@[i]@,
                done@,
            ) by {
                if next@.contains(i as usize) {
                    assert(sorted@.contains(i as usize));
                }
            }
            assert(queue@.take(z) =~= q0.take(z));
            assert forall|p: int| 0 <= p < queue@.len() implies (p < z <==> tgs@[#[trigger] queue@[p] as int]@.len() == 0) by {
                if p >= q0.len() {
                    let y = queue@[p];
                    assert(sorted@.contains(y));
                    assert(next@.contains(y));
                    assert(!queued0[y as int]);
                } else {
                    assert(queue@[p] == q0[p]);
                }
            }
        }
    }
    let mut r: Vec<String> = Vec::new();
    let mut p: usize = 0;
    while p < queue.len()
        invariant
            p <= queue@.len(),
            n == deps@.len(),
            forall|i: int| 0 <= i < queue@.len() ==> #[trigger] queue@[i] < n,
            r@.len() == p,
            forall|i: int| 0 <= i < p ==> (#[trigger] r@[i])@ == deps@[queue@[i] as int].0@,
        decreases queue@.len() - p,
    {
        r.push(deps[queue[p]].0.clone());
        p += 1;
    }
    proof {
        lemma_topological_result(g, tgs@, queue@, done@, queued@, r@);
        assert forall|i: int| 0 <= i < n implies #[trigger] crate::text::views(names@)[i] == kt[i] by {
            assert(crate::text::views(names@)[i] == names@[i]@);
        }
        lemma_topological_roots(g, tgs@, queue@, z, crate::text::views(names@), r@);
        lemma_batches_result(g, tgs@, queue@, b, nv, r@);
        let rt = texts(r@);
        if forall|k: int| 0 <= k < deps@.len() ==> rt.contains(#[trigger] key_texts(deps@)[k]) {
            assert(rt.len() == rt.len());
            assert(acyclic(deps@));
        }
        if acyclic(deps@) {
            let o = choose|o: Seq<Seq<char>>|
                #![trigger o.len()]
                (forall|k: int| 0 <= k < g.len() ==> o.contains(#[trigger] key_texts(g)[k])) && (forall|
                    q: int,
                    k: int,
                |
                    #![trigger o[q], key_texts(g)[k]]
                    0 <= q < o.len() && 0 <= k < g.len() && o[q] == key_texts(g)[k] ==> deps_within(
                        g,
                        k,
                        o.take(q),
                    ));
            assert forall|k: int| 0 <= k < deps@.len() implies rt.contains(#[trigger] key_texts(deps@)[k]) by {
                assert(o.contains(kt[k]));
                let q = choose|q: int| 0 <= q < o.len() && o[q] == kt[k];
                lemma_order_in_result(g, rt, o, q);
            }
        }
        assert forall|p: int, s: int, k1: int, k2: int|
            #![trigger r@[p], r@[s], key_texts(deps@)[k1], key_texts(deps@)[k2]]
            0 <= p < s < r@.len() && 0 <= k1 < deps@.len() && 0 <= k2 < deps@.len() && r@[p]@
                == key_texts(deps@)[k1] && r@[s]@ == key_texts(deps@)[k2] implies last_dep_index(
                texts(r@),
                dep_names(deps@[k1].1),
            ) < last_dep_index(texts(r@), dep_names(deps@[k2].1)) || (last_dep_index(
                texts(r@),
                dep_names(deps@[k1].1),
            ) == last_dep_index(texts(r@), dep_names(deps@[k2].1)) && lex_le(r@[p]@, r@[s]@)) by {
            assert(kt[queue@[p] as int] == kt[k1]);
            assert(queue@[p] as int == k1);
            assert(kt[queue@[s] as int] == kt[k2]);
            assert(queue@[s] as int == k2);
            assert(nv[queue@[p] as int] == r@[p]@);
            assert(nv[queue@[s] as int] == r@[s]@);
        }
    }
    proof {
        let rt = texts(r@);
        assert forall|p: int| 0 <= p < rt.len() implies #[trigger] rt[p] == r@[p]@ by {}
        assert forall|p: int| 0 <= p < rt.len() implies is_key(g, #[trigger] rt[p]) by {
            assert(is_key(deps@, r@[p]@));
        }
        assert forall|p: int, k: int|
            #![trigger rt[p], key_texts(g)[k]]
            0 <= p < rt.len() && 0 <= k < g.len() && rt[p] == key_texts(g)[k] implies deps_within(g, k, rt.take(p)) by {
            assert(r@[p]@ == key_texts(deps@)[k]);
        }
        assert forall|p: int, s: int, k1: int, k2: int|
            #![trigger rt[p], rt[s], key_texts(g)[k1], key_texts(g)[k2]]
            0 <= p < s < rt.len() && 0 <= k1 < g.len() && 0 <= k2 < g.len() && rt[p] == key_texts(g)[k1]
                && rt[s] == key_texts(g)[k2] implies last_dep_index(rt, dep_names(g[k1].1)) < last_dep_index(
                rt,
                dep_names(g[k2].1),
            ) || (last_dep_index(rt, dep_names(g[k1].1)) == last_dep_index(rt, dep_names(g[k2].1))
                && lex_le(rt[p], rt[s])) by {
            assert(r@[p]@ == key_texts(deps@)[k1]);
            assert(r@[s]@ == key_texts(deps@)[k2]);
        }
        lemma_topo_order_of_result(g, rt);
    }
    r
}

} // verus!
