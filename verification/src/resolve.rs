//! The candidate resolver: an exact pass that keeps every pod whose name
//! contains the fragment, in listing order, and a fuzzy fallback that
//! ranks all pods by the similarity scorer, stable with respect to the
//! listing order, and keeps at most the candidate window.

use crate::distance::{
    dist_eq, dist_le, frac_le, lemma_frac_le_total, lemma_frac_le_trans, lemma_overlap_le_union,
    overlap, score, score_le, union_size,
};
use crate::pod::PodInfo;
use vstd::prelude::*;
use vstd::relations::{sorted_by, total_ordering};
use vstd::seq_lib::lemma_multiset_commutative;

verus! {

broadcast use vstd::seq_lib::group_to_multiset_ensures, vstd::multiset::group_multiset_axioms;

/// `needle` occurs in `hay` starting at position `k`.
pub open spec fn contains_at(hay: Seq<char>, needle: Seq<char>, k: int) -> bool {
    0 <= k && k + needle.len() <= hay.len() && hay.subrange(k, k + needle.len() as int) == needle
}

/// `needle` occurs somewhere in `hay` (case-sensitive).
pub open spec fn is_substring(hay: Seq<char>, needle: Seq<char>) -> bool {
    exists|k: int| contains_at(hay, needle, k)
}

/// Whether `needle` occurs in `hay` at position `k`.
fn match_at(hay: &str, needle: &str, k: usize, n: usize, m: usize) -> (r: bool)
    requires
        n == hay@.len(),
        m == needle@.len(),
        k + m <= n,
    ensures
        r == contains_at(hay@, needle@, k as int),
{
    let mut j: usize = 0;
    while j < m
        invariant
            j <= m,
            k + m <= n,
            n == hay@.len(),
            m == needle@.len(),
            forall|t: int| 0 <= t < j ==> hay@[k + t] == needle@[t],
        decreases m - j,
    {
        if hay.get_char(k + j) != needle.get_char(j) {
            proof {
                assert(hay@.subrange(k as int, k + m as int)[j as int] == hay@[k + j]);
            }
            return false;
        }
        j = j + 1;
    }
    proof {
        assert(hay@.subrange(k as int, k + m as int) =~= needle@);
    }
    true
}

/// Whether `needle` occurs anywhere in `hay`, as `is_substring` says.
pub fn str_contains(hay: &str, needle: &str) -> (r: bool)
    ensures
        r == is_substring(hay@, needle@),
{
    let n = hay.unicode_len();
    let m = needle.unicode_len();
    if m > n {
        return false;
    }
    if m == 0 {
        proof {
            assert(hay@.subrange(0, 0) =~= needle@);
            assert(contains_at(hay@, needle@, 0));
        }
        return true;
    }
    let mut k: usize = 0;
    while k <= n - m
        invariant
            1 <= m <= n,
            n == hay@.len(),
            m == needle@.len(),
            k <= n - m + 1,
            forall|t: int| 0 <= t < k ==> !contains_at(hay@, needle@, t),
        decreases n - m + 1 - k,
    {
        if match_at(hay, needle, k, n, m) {
            return true;
        }
        k = k + 1;
    }
    proof {
        assert forall|t: int| !contains_at(hay@, needle@, t) by {
            if 0 <= t && t + needle@.len() <= hay@.len() {
                assert(t <= n - m);
            }
        }
    }
    false
}

/// The pods whose name contains `frag`, in listing order.
pub open spec fn exact_list(frag: Seq<char>, pods: Seq<PodInfo>) -> Seq<PodInfo> {
    pods.filter(|p: PodInfo| is_substring(p.name@, frag))
}

/// The exact pass: keeps every pod whose name contains the fragment,
/// in listing order.
pub fn exact_candidates(fragment: &str, pods: &Vec<PodInfo>) -> (r: Vec<PodInfo>)
    ensures
        r@ == exact_list(fragment@, pods@),
{
    let ghost pred = |p: PodInfo| is_substring(p.name@, fragment@);
    let mut r: Vec<PodInfo> = Vec::new();
    proof {
        reveal(Seq::filter);
        assert(pods@.take(0) =~= Seq::<PodInfo>::empty());
        assert(r@ =~= pods@.take(0).filter(pred));
    }
    let mut i: usize = 0;
    while i < pods.len()
        invariant
            i <= pods@.len(),
            r@ == pods@.take(i as int).filter(pred),
            pred == (|p: PodInfo| is_substring(p.name@, fragment@)),
        decreases pods@.len() - i,
    {
        let keep = str_contains(pods[i].name.as_str(), fragment);
        proof {
            reveal(Seq::filter);
            let t = pods@.take(i as int + 1);
            assert(t.drop_last() =~= pods@.take(i as int));
            assert(t.last() == pods@[i as int]);
        }
        if keep {
            r.push(pods[i].clone());
        }
        i = i + 1;
    }
    proof {
        assert(pods@.take(pods@.len() as int) =~= pods@);
    }
    r
}

/// The sort key of pod `i`: its scorer pair against the fragment.
pub open spec fn pod_key(pods: Seq<PodInfo>, frag: Seq<char>, i: usize) -> (int, int) {
    (overlap(pods[i as int].name@, frag) as int, union_size(pods[i as int].name@, frag) as int)
}

/// The ranking order of the fuzzy pass: by distance to the fragment,
/// ties broken by listing position, which makes the order total.
pub open spec fn rank_leq(pods: Seq<PodInfo>, frag: Seq<char>, i: usize, j: usize) -> bool {
    let ki = pod_key(pods, frag, i);
    let kj = pod_key(pods, frag, j);
    if frac_le(ki.0, ki.1, kj.0, kj.1) && frac_le(kj.0, kj.1, ki.0, ki.1) {
        i <= j
    } else {
        frac_le(ki.0, ki.1, kj.0, kj.1)
    }
}

/// The ranking order as a relation on listing positions.
pub open spec fn rank_rel(pods: Seq<PodInfo>, frag: Seq<char>) -> spec_fn(usize, usize) -> bool {
    |i: usize, j: usize| rank_leq(pods, frag, i, j)
}

/// The ranking order is a total ordering.
pub proof fn lemma_rank_total(pods: Seq<PodInfo>, frag: Seq<char>)
    ensures
        total_ordering(rank_rel(pods, frag)),
{
    let leq = rank_rel(pods, frag);
    assert forall|i: usize| #[trigger] leq(i, i) by {
        lemma_overlap_le_union(pods[i as int].name@, frag);
    }
    assert forall|i: usize, j: usize| #[trigger] leq(i, j) && #[trigger] leq(j, i) implies i
        == j by {
        lemma_overlap_le_union(pods[i as int].name@, frag);
        lemma_overlap_le_union(pods[j as int].name@, frag);
    }
    assert forall|i: usize, j: usize, k: usize|
        #[trigger] leq(i, j) && #[trigger] leq(j, k) implies leq(i, k) by {
        lemma_overlap_le_union(pods[i as int].name@, frag);
        lemma_overlap_le_union(pods[j as int].name@, frag);
        lemma_overlap_le_union(pods[k as int].name@, frag);
        let ki = pod_key(pods, frag, i);
        let kj = pod_key(pods, frag, j);
        let kk = pod_key(pods, frag, k);
        lemma_frac_le_trans(ki.0, ki.1, kj.0, kj.1, kk.0, kk.1);
        if frac_le(kk.0, kk.1, ki.0, ki.1) {
            lemma_frac_le_trans(kk.0, kk.1, ki.0, ki.1, kj.0, kj.1);
            lemma_frac_le_trans(kj.0, kj.1, kk.0, kk.1, ki.0, ki.1);
        }
    }
    assert forall|i: usize, j: usize| #[trigger] leq(i, j) || #[trigger] leq(j, i) by {
        lemma_overlap_le_union(pods[i as int].name@, frag);
        lemma_overlap_le_union(pods[j as int].name@, frag);
        let ki = pod_key(pods, frag, i);
        let kj = pod_key(pods, frag, j);
        lemma_frac_le_total(ki.0, ki.1, kj.0, kj.1);
    }
}

/// The scorer pair of each pod against the fragment.
fn compute_keys(fragment: &str, pods: &Vec<PodInfo>) -> (keys: Vec<(usize, usize)>)
    ensures
        keys@.len() == pods@.len(),
        forall|t: int|
            0 <= t < keys@.len() ==> {
                &&& (#[trigger] keys@[t]).0 == overlap(pods@[t].name@, fragment@)
                &&& keys@[t].1 == union_size(pods@[t].name@, fragment@)
                &&& keys@[t].0 <= keys@[t].1
                &&& keys@[t].1 <= 0x330000
            },
{
    let mut keys: Vec<(usize, usize)> = Vec::new();
    let mut i: usize = 0;
    while i < pods.len()
        invariant
            i <= pods@.len(),
            keys@.len() == i,
            forall|t: int|
                0 <= t < i ==> {
                    &&& (#[trigger] keys@[t]).0 == overlap(pods@[t].name@, fragment@)
                    &&& keys@[t].1 == union_size(pods@[t].name@, fragment@)
                    &&& keys@[t].0 <= keys@[t].1
                    &&& keys@[t].1 <= 0x330000
                },
        decreases pods@.len() - i,
    {
        let k = score(pods[i].name.as_str(), fragment);
        keys.push(k);
        i = i + 1;
    }
    keys
}

/// Decides `rank_leq` between listing positions `a` and `b` from their
/// precomputed keys.
fn rank_leq_exec(
    keys: &Vec<(usize, usize)>,
    a: usize,
    b: usize,
    Ghost(pods): Ghost<Seq<PodInfo>>,
    Ghost(frag): Ghost<Seq<char>>,
) -> (r: bool)
    requires
        keys@.len() == pods.len(),
        (a as int) < keys@.len(),
        (b as int) < keys@.len(),
        forall|t: int|
            0 <= t < keys@.len() ==> {
                &&& (#[trigger] keys@[t]).0 == overlap(pods[t].name@, frag)
                &&& keys@[t].1 == union_size(pods[t].name@, frag)
                &&& keys@[t].0 <= keys@[t].1
                &&& keys@[t].1 <= 0x330000
            },
    ensures
        r == rank_leq(pods, frag, a, b),
{
    let ka = keys[a];
    let kb = keys[b];
    let le_ab = score_le(ka, kb);
    let le_ba = score_le(kb, ka);
    if le_ab && le_ba {
        a <= b
    } else {
        le_ab
    }
}

/// Inserting an element anywhere adds it to the sequence's multiset.
proof fn lemma_insert_to_multiset<A>(s: Seq<A>, p: int, x: A)
    requires
        0 <= p <= s.len(),
    ensures
        s.insert(p, x).to_multiset() == s.to_multiset().insert(x),
{
    let a = s.subrange(0, p);
    let b = s.subrange(p, s.len() as int);
    lemma_multiset_commutative(a.push(x), b);
    lemma_multiset_commutative(a, b);
    assert(s =~= a + b);
    assert(s.insert(p, x).to_multiset() =~= s.to_multiset().insert(x));
}

/// The listing positions `0 .. n`, in listing order.
pub open spec fn ident_seq(n: int) -> Seq<usize> {
    Seq::new(n as nat, |k: int| k as usize)
}

/// Sorts the listing positions of `pods` by `rank_leq`: a stable
/// ranking of all pods by their distance to the fragment.
fn sorted_indices(fragment: &str, pods: &Vec<PodInfo>) -> (ord: Vec<usize>)
    ensures
        ord@.len() == pods@.len(),
        sorted_by(ord@, rank_rel(pods@, fragment@)),
        ord@.to_multiset() == ident_seq(pods@.len() as int).to_multiset(),
        forall|t: int| 0 <= t < ord@.len() ==> (ord@[t] as int) < pods@.len(),
{
    let keys = compute_keys(fragment, pods);
    let n = pods.len();
    let ghost leq = rank_rel(pods@, fragment@);
    proof {
        lemma_rank_total(pods@, fragment@);
        assert(ident_seq(0) =~= Seq::<usize>::empty());
    }
    let mut ord: Vec<usize> = Vec::new();
    let mut i: usize = 0;
    while i < n
        invariant
            i <= n,
            n == pods@.len(),
            keys@.len() == n,
            forall|t: int|
                0 <= t < keys@.len() ==> {
                    &&& (#[trigger] keys@[t]).0 == overlap(pods@[t].name@, fragment@)
                    &&& keys@[t].1 == union_size(pods@[t].name@, fragment@)
                    &&& keys@[t].0 <= keys@[t].1
                    &&& keys@[t].1 <= 0x330000
                },
            leq == rank_rel(pods@, fragment@),
            total_ordering(leq),
            ord@.len() == i,
            sorted_by(ord@, leq),
            ord@.to_multiset() == ident_seq(i as int).to_multiset(),
            forall|t: int| 0 <= t < ord@.len() ==> (ord@[t] as int) < i,
        decreases n - i,
    {
        let mut p: usize = 0;
        loop
            invariant
                p <= ord@.len(),
                ord@.len() == i,
                i < n,
                n == pods@.len(),
                keys@.len() == n,
                forall|t: int|
                    0 <= t < keys@.len() ==> {
                        &&& (#[trigger] keys@[t]).0 == overlap(pods@[t].name@, fragment@)
                        &&& keys@[t].1 == union_size(pods@[t].name@, fragment@)
                        &&& keys@[t].0 <= keys@[t].1
                        &&& keys@[t].1 <= 0x330000
                    },
                forall|t: int| 0 <= t < ord@.len() ==> (ord@[t] as int) < i,
                forall|t: int| 0 <= t < p ==> rank_leq(pods@, fragment@, ord@[t], i),
            ensures
                p <= ord@.len(),
                forall|t: int| 0 <= t < p ==> rank_leq(pods@, fragment@, ord@[t], i),
                p < ord@.len() ==> !rank_leq(pods@, fragment@, ord@[p as int], i),
            decreases ord@.len() - p,
        {
            if p < ord.len() {
                let cont = rank_leq_exec(&keys, ord[p], i, Ghost(pods@), Ghost(fragment@));
                if cont {
                    p = p + 1;
                } else {
                    break;
                }
            } else {
                break;
            }
        }
        let ghost old_ord = ord@;
        ord.insert(p, i);
        proof {
            old_ord.insert_ensures(p as int, i);
            lemma_insert_to_multiset(old_ord, p as int, i);
            assert(ident_seq(i as int + 1) =~= ident_seq(i as int).push(i));
            assert(ord@.to_multiset() =~= ident_seq(i as int + 1).to_multiset());
            assert forall|a: int, b: int| 0 <= a < b < ord@.len() implies leq(ord@[a], ord@[b]) by {
                if b < p {
                    assert(ord@[a] == old_ord[a] && ord@[b] == old_ord[b]);
                } else if a < p && b == p {
                    assert(ord@[a] == old_ord[a]);
                    assert(rank_leq(pods@, fragment@, old_ord[a], i));
                } else if a < p && b > p {
                    assert(ord@[a] == old_ord[a] && ord@[b] == old_ord[b - 1]);
                    assert(leq(old_ord[a], old_ord[b - 1]));
                } else if a == p && b > p {
                    assert(ord@[b] == old_ord[b - 1]);
                    assert(!leq(old_ord[p as int], i));
                    assert(leq(i, old_ord[p as int]));
                    if b - 1 > p {
                        assert(leq(old_ord[p as int], old_ord[b - 1]));
                    }
                } else {
                    assert(a > p && b > p);
                    assert(ord@[a] == old_ord[a - 1] && ord@[b] == old_ord[b - 1]);
                    assert(leq(old_ord[a - 1], old_ord[b - 1]));
                }
            }
        }
        i = i + 1;
    }
    ord
}

/// How many fuzzy candidates are kept: the window size, hard-capped at
/// 25, and never more than there are pods.
pub open spec fn window_cap(w: int, n: int) -> int {
    let capped = if w < 25 {
        w
    } else {
        25
    };
    if capped < n {
        capped
    } else {
        n
    }
}

/// The fuzzy pass produced `r` from `pods`: `ord` ranks all listing
/// positions by distance to the fragment, stable on ties, and `r` keeps
/// the window-capped closest pods in rank order.
pub open spec fn fuzzy_witness(
    frag: Seq<char>,
    pods: Seq<PodInfo>,
    w: int,
    ord: Seq<usize>,
    r: Seq<PodInfo>,
) -> bool {
    &&& ord.len() == pods.len()
    &&& sorted_by(ord, rank_rel(pods, frag))
    &&& ord.to_multiset() == ident_seq(pods.len() as int).to_multiset()
    &&& (forall|t: int| 0 <= t < ord.len() ==> (ord[t] as int) < pods.len())
    &&& r == ord.take(window_cap(w, pods.len() as int)).map_values(|u: usize| pods[u as int])
}

/// The fuzzy fallback: every pod ranked by the similarity scorer,
/// stable-sorted, at most the candidate window returned.
pub fn fuzzy_candidates(fragment: &str, pods: &Vec<PodInfo>, window_size: usize) -> (r: Vec<
    PodInfo,
>)
    ensures
        r@.len() == window_cap(window_size as int, pods@.len() as int),
        forall|t: int, u: int|
            0 <= t < u < r@.len() ==> dist_le(r@[t].name@, r@[u].name@, fragment@),
        exists|ord: Seq<usize>|
            fuzzy_witness(fragment@, pods@, window_size as int, ord, r@),
{
    let ord = sorted_indices(fragment, pods);
    let mut k = window_size;
    if k > 25 {
        k = 25;
    }
    if k > pods.len() {
        k = pods.len();
    }
    let mut r: Vec<PodInfo> = Vec::new();
    let mut t: usize = 0;
    while t < k
        invariant
            t <= k,
            k == window_cap(window_size as int, pods@.len() as int),
            k <= ord@.len(),
            ord@.len() == pods@.len(),
            forall|s: int| 0 <= s < ord@.len() ==> (ord@[s] as int) < pods@.len(),
            r@.len() == t,
            forall|s: int| 0 <= s < t ==> r@[s] == pods@[ord@[s] as int],
        decreases k - t,
    {
        let idx = ord[t];
        r.push(pods[idx].clone());
        t = t + 1;
    }
    proof {
        assert(r@ =~= ord@.take(window_cap(window_size as int, pods@.len() as int)).map_values(
            |u: usize| pods@[u as int],
        ));
        assert(fuzzy_witness(fragment@, pods@, window_size as int, ord@, r@));
        lemma_rank_total(pods@, fragment@);
        assert forall|a: int, b: int| 0 <= a < b < r@.len() implies dist_le(
            r@[a].name@,
            r@[b].name@,
            fragment@,
        ) by {
            assert(rank_rel(pods@, fragment@)(ord@[a], ord@[b]));
            assert(rank_leq(pods@, fragment@, ord@[a], ord@[b]));
        }
    }
    r
}

/// What resolution returns: the exact matches in listing order when
/// there are any, and otherwise the window-capped stable fuzzy ranking.
pub open spec fn resolve_post(
    frag: Seq<char>,
    pods: Seq<PodInfo>,
    w: int,
    r: Seq<PodInfo>,
) -> bool {
    if exact_list(frag, pods).len() > 0 {
        r == exact_list(frag, pods)
    } else {
        exists|ord: Seq<usize>| fuzzy_witness(frag, pods, w, ord, r)
    }
}

/// Resolves a fragment against the pod listing: the exact pass wins
/// when it finds anything (the scorer never runs, listing order is
/// kept); otherwise the fuzzy fallback ranks every pod.  An empty
/// result means no match at all.
pub fn get_candidate_pod(fragment: &str, pods: &Vec<PodInfo>, window_size: usize) -> (r: Vec<
    PodInfo,
>)
    ensures
        resolve_post(fragment@, pods@, window_size as int, r@),
        exact_list(fragment@, pods@).len() > 0 ==> r@ == exact_list(fragment@, pods@),
        r@.len() <= pods@.len(),
{
    let exact = exact_candidates(fragment, pods);
    proof {
        pods@.lemma_filter_len(|p: PodInfo| is_substring(p.name@, fragment@));
    }
    if exact.len() > 0 {
        exact
    } else {
        fuzzy_candidates(fragment, pods, window_size)
    }
}

/// What the fuzzy pass returns is sorted: over the whole ranking, and
/// so over the returned window, distances to the fragment never
/// decrease, and the window keeps exactly `min(windowSize, 25, pods)`
/// candidates.
pub proof fn lemma_fuzzy_sorted(
    frag: Seq<char>,
    pods: Seq<PodInfo>,
    w: int,
    ord: Seq<usize>,
    r: Seq<PodInfo>,
)
    requires
        fuzzy_witness(frag, pods, w, ord, r),
        0 <= w,
    ensures
        r.len() == window_cap(w, pods.len() as int),
        forall|t: int, u: int| 0 <= t < u < r.len() ==> dist_le(r[t].name@, r[u].name@, frag),
{
    assert(0 <= window_cap(w, pods.len() as int) <= ord.len());
    assert forall|t: int, u: int| 0 <= t < u < r.len() implies dist_le(
        r[t].name@,
        r[u].name@,
        frag,
    ) by {
        assert(rank_rel(pods, frag)(ord[t], ord[u]));
        assert(rank_leq(pods, frag, ord[t], ord[u]));
        let cap = window_cap(w, pods.len() as int);
        assert(ord.take(cap)[t] == ord[t] && ord.take(cap)[u] == ord[u]);
        assert(r[t] == pods[ord[t] as int] && r[u] == pods[ord[u] as int]);
    }
}

/// Two sequences sorted by one total ordering and holding the same
/// elements are the same sequence.
proof fn lemma_sorted_unique_by<A>(s1: Seq<A>, s2: Seq<A>, leq: spec_fn(A, A) -> bool)
    requires
        total_ordering(leq),
        sorted_by(s1, leq),
        sorted_by(s2, leq),
        s1.to_multiset() == s2.to_multiset(),
    ensures
        s1 == s2,
    decreases s1.len(),
{
    assert(s1.len() == s1.to_multiset().len());
    assert(s2.len() == s2.to_multiset().len());
    if s1.len() == 0 {
        assert(s1 =~= s2);
    } else {
        assert(s1.to_multiset().count(s1[0]) > 0);
        assert(s2.contains(s1[0]));
        let j = choose|j: int| 0 <= j < s2.len() && s2[j] == s1[0];
        assert(leq(s2[0], s1[0]));
        assert(s2.to_multiset().count(s2[0]) > 0);
        assert(s1.contains(s2[0]));
        let i = choose|i: int| 0 <= i < s1.len() && s1[i] == s2[0];
        assert(leq(s1[0], s2[0]));
        assert(s1[0] == s2[0]);
        let t1 = s1.drop_first();
        let t2 = s2.drop_first();
        assert(s1.remove(0) =~= t1);
        assert(s2.remove(0) =~= t2);
        assert(t1.to_multiset() == s1.to_multiset().remove(s1[0]));
        assert(t2.to_multiset() == s2.to_multiset().remove(s2[0]));
        assert(forall|a: int| 0 <= a < t1.len() ==> t1[a] == s1[a + 1]);
        assert(forall|a: int| 0 <= a < t2.len() ==> t2[a] == s2[a + 1]);
        lemma_sorted_unique_by(t1, t2, leq);
        assert forall|a: int| 0 <= a < s1.len() implies s1[a] == s2[a] by {
            if a > 0 {
                assert(s1[a] == t1[a - 1]);
                assert(s2[a] == t2[a - 1]);
            }
        }
        assert(s1 =~= s2);
    }
}

/// The fuzzy contract admits one outcome only: any two rankings and
/// windows it allows for the same fragment, listing and window size are
/// the same.
pub proof fn lemma_fuzzy_unique(
    frag: Seq<char>,
    pods: Seq<PodInfo>,
    w: int,
    ord1: Seq<usize>,
    r1: Seq<PodInfo>,
    ord2: Seq<usize>,
    r2: Seq<PodInfo>,
)
    requires
        fuzzy_witness(frag, pods, w, ord1, r1),
        fuzzy_witness(frag, pods, w, ord2, r2),
    ensures
        ord1 == ord2,
        r1 == r2,
{
    lemma_rank_total(pods, frag);
    lemma_sorted_unique_by(ord1, ord2, rank_rel(pods, frag));
}

/// Ties in the fuzzy ranking keep the listing order: wherever two
/// ranked pods are at the same distance from the fragment, the one the
/// lister returned first comes first.
pub proof fn lemma_fuzzy_stable(
    frag: Seq<char>,
    pods: Seq<PodInfo>,
    w: int,
    ord: Seq<usize>,
    r: Seq<PodInfo>,
)
    requires
        fuzzy_witness(frag, pods, w, ord, r),
        pods.len() <= usize::MAX,
    ensures
        forall|t: int, u: int|
            0 <= t < u < ord.len() && dist_eq(
                pods[ord[t] as int].name@,
                pods[ord[u] as int].name@,
                frag,
            ) ==> ord[t] < ord[u],
{
    let ident = ident_seq(pods.len() as int);
    assert forall|a: int, b: int| 0 <= a < b < ident.len() implies ident[a] != ident[b] by {
        assert(ident[a] == a as usize && ident[b] == b as usize);
    }
    assert(ident.no_duplicates());
    ident.lemma_multiset_has_no_duplicates();
    ord.lemma_multiset_has_no_duplicates_conv();
    assert forall|t: int, u: int|
        0 <= t < u < ord.len() && dist_eq(
            pods[ord[t] as int].name@,
            pods[ord[u] as int].name@,
            frag,
        ) implies ord[t] < ord[u] by {
        assert(rank_rel(pods, frag)(ord[t], ord[u]));
        assert(rank_leq(pods, frag, ord[t], ord[u]));
        assert(ord[t] != ord[u]);
    }
}

} // verus!
