//! The similarity scorer: a character-set overlap distance between a
//! query fragment and a candidate name, used only as a sort key.  The
//! distance of `a` and `q` is `1 - |A n Q| / |A u Q|` over the sets of
//! characters of the two strings (`0` when both are empty), kept here as
//! the exact pair (overlap, union) and compared as exact rationals, so
//! that equal inputs always rank equal and the order is reproducible.

use vstd::prelude::*;
use vstd::relations::injective_on;
use vstd::seq_lib::seq_to_set_is_finite;
use vstd::set_lib::{lemma_int_range, lemma_len_subset, lemma_map_size, set_int_range};

verus! {

broadcast use vstd::set::group_set_axioms, seq_to_set_is_finite;

/// The set of characters occurring in `s`.
pub open spec fn char_set(s: Seq<char>) -> Set<char> {
    s.to_set()
}

/// How many characters the two strings share: the size of the
/// intersection of their character sets.
pub open spec fn overlap(a: Seq<char>, q: Seq<char>) -> nat {
    char_set(a).intersect(char_set(q)).len()
}

/// The size of the union of the two character sets.
pub open spec fn union_size(a: Seq<char>, q: Seq<char>) -> nat {
    char_set(a).union(char_set(q)).len()
}

/// `(ua - ia) / ua <= (ub - ib) / ub` as exact rational arithmetic,
/// with a zero denominator (two empty strings) ranking as distance zero.
pub open spec fn frac_le(ia: int, ua: int, ib: int, ub: int) -> bool {
    if ua == 0 {
        true
    } else if ub == 0 {
        false
    } else {
        (ua - ia) * ub <= (ub - ib) * ua
    }
}

/// The distance from `a` to `q` is at most the distance from `b` to `q`.
pub open spec fn dist_le(a: Seq<char>, b: Seq<char>, q: Seq<char>) -> bool {
    frac_le(
        overlap(a, q) as int,
        union_size(a, q) as int,
        overlap(b, q) as int,
        union_size(b, q) as int,
    )
}

/// The two distances to `q` are equal.
pub open spec fn dist_eq(a: Seq<char>, b: Seq<char>, q: Seq<char>) -> bool {
    dist_le(a, b, q) && dist_le(b, a, q)
}

/// Every character's code is a Unicode scalar value.
proof fn lemma_char_value(c: char)
    ensures
        0 <= (c as int) && (c as int) < 0x110000,
{
}

/// There are no more distinct characters than Unicode scalar values.
pub proof fn lemma_char_set_bound(s: Set<char>)
    requires
        s.finite(),
    ensures
        s.len() <= 0x110000,
{
    let f = |c: char| c as int;
    let t = s.map(f);
    assert(injective_on(f, s));
    lemma_map_size(s, t, f);
    lemma_int_range(0, 0x110000);
    assert forall|x: int| t.contains(x) implies set_int_range(0, 0x110000).contains(x) by {
        let c = choose|c: char| s.contains(c) && f(c) == x;
        lemma_char_value(c);
    }
    assert(t.subset_of(set_int_range(0, 0x110000)));
    lemma_len_subset(t, set_int_range(0, 0x110000));
}

/// Extending a prefix by one character inserts that character into the
/// prefix's character set.
proof fn lemma_take_to_set_step(s: Seq<char>, i: int)
    requires
        0 <= i < s.len(),
    ensures
        s.take(i + 1).to_set() == s.take(i).to_set().insert(s[i]),
{
    let a = s.take(i + 1);
    let b = s.take(i);
    let c = s[i];
    assert forall|x: char| a.to_set().contains(x) <==> b.to_set().insert(c).contains(x) by {
        if a.contains(x) {
            let j = choose|j: int| 0 <= j < a.len() && a[j] == x;
            if j < i {
                assert(b[j] == x);
            } else {
                assert(x == c);
            }
        }
        if b.contains(x) {
            let j = choose|j: int| 0 <= j < b.len() && b[j] == x;
            assert(a[j] == x);
        }
        if x == c {
            assert(a[i] == x);
        }
    }
    assert(a.to_set() =~= b.to_set().insert(c));
}

/// The size of a union of two disjoint finite sets is the sum of their
/// sizes.
pub proof fn lemma_disjoint_union_len<A>(s1: Set<A>, s2: Set<A>)
    requires
        s1.finite(),
        s2.finite(),
        s1.disjoint(s2),
    ensures
        s1.union(s2).len() == s1.len() + s2.len(),
    decreases s2.len(),
{
    vstd::set_lib::lemma_set_union_finite_iff(s1, s2);
    if s2.len() == 0 {
        if exists|x: A| s2.contains(x) {
            let x = choose|x: A| s2.contains(x);
            assert(s2.remove(x).len() + 1 == s2.len());
        }
        assert(s1.union(s2) =~= s1);
    } else {
        if forall|x: A| !s2.contains(x) {
            assert(s2 =~= Set::empty());
        }
        let x = choose|x: A| s2.contains(x);
        assert(s1.union(s2).remove(x) =~= s1.union(s2.remove(x)));
        lemma_disjoint_union_len(s1, s2.remove(x));
        assert(s1.union(s2).contains(x));
    }
}

/// A union splits into the shared part and what each side alone brings:
/// `|A u B| == |A n B| + |A \ B| + |B \ A|`.
pub proof fn lemma_union_partition<A>(a: Set<A>, b: Set<A>)
    requires
        a.finite(),
        b.finite(),
    ensures
        a.union(b).len() == a.intersect(b).len() + a.difference(b).len() + b.difference(a).len(),
{
    let shared = a.intersect(b);
    let only_a = a.difference(b);
    let only_b = b.difference(a);
    assert(shared.subset_of(a));
    assert(only_a.subset_of(a));
    assert(only_b.subset_of(b));
    lemma_len_subset(shared, a);
    lemma_len_subset(only_a, a);
    lemma_len_subset(only_b, b);
    assert(a =~= shared.union(only_a));
    lemma_disjoint_union_len(shared, only_a);
    assert(a.union(b) =~= a.union(only_b));
    lemma_disjoint_union_len(a, only_b);
}

/// The shared characters are never more than the combined ones.
pub proof fn lemma_overlap_le_union(a: Seq<char>, q: Seq<char>)
    ensures
        overlap(a, q) <= union_size(a, q),
        union_size(a, q) <= 0x220000,
{
    let s = char_set(a);
    let t = char_set(q);
    assert(s.intersect(t).subset_of(s.union(t)));
    vstd::set_lib::lemma_set_union_finite_iff(s, t);
    lemma_len_subset(s.intersect(t), s.union(t));
    assert(s.subset_of(s.union(t)));
    lemma_disjoint_union_len(s, t.difference(s));
    assert(s.union(t) =~= s.union(t.difference(s)));
    assert(t.difference(s).subset_of(t));
    lemma_len_subset(t.difference(s), t);
    lemma_char_set_bound(s);
    lemma_char_set_bound(t);
}

/// The scorer is symmetric: swapping the two strings changes neither
/// the overlap nor the union, so it cannot change the distance.
pub proof fn lemma_score_symmetric(a: Seq<char>, q: Seq<char>)
    ensures
        overlap(a, q) == overlap(q, a),
        union_size(a, q) == union_size(q, a),
{
    assert(char_set(a).intersect(char_set(q)) =~= char_set(q).intersect(char_set(a)));
    assert(char_set(a).union(char_set(q)) =~= char_set(q).union(char_set(a)));
}

/// Equal inputs rank equal: a string is at distance-equality with
/// itself against any query.
pub proof fn lemma_dist_refl(a: Seq<char>, q: Seq<char>)
    ensures
        dist_eq(a, a, q),
{
}

/// Any two distances are comparable.
pub proof fn lemma_frac_le_total(ia: int, ua: int, ib: int, ub: int)
    requires
        0 <= ia <= ua,
        0 <= ib <= ub,
    ensures
        frac_le(ia, ua, ib, ub) || frac_le(ib, ub, ia, ua),
{
}

/// The distance comparison is transitive.
pub proof fn lemma_frac_le_trans(ia: int, ua: int, ib: int, ub: int, ic: int, uc: int)
    requires
        0 <= ia <= ua,
        0 <= ib <= ub,
        0 <= ic <= uc,
        frac_le(ia, ua, ib, ub),
        frac_le(ib, ub, ic, uc),
    ensures
        frac_le(ia, ua, ic, uc),
{
    if ua != 0 && uc != 0 {
        assert(ub != 0);
        assert((ua - ia) * uc <= (uc - ic) * ua) by (nonlinear_arith)
            requires
                ua > 0,
                ub > 0,
                uc > 0,
                (ua - ia) * ub <= (ub - ib) * ua,
                (ub - ib) * uc <= (uc - ic) * ub,
        ;
    }
}

/// Whether `c` occurs among the first `upto` characters of `s`.
fn has_char(s: &str, upto: usize, c: char) -> (r: bool)
    requires
        upto <= s@.len(),
    ensures
        r == s@.take(upto as int).contains(c),
{
    let mut j: usize = 0;
    while j < upto
        invariant
            j <= upto,
            upto <= s@.len(),
            forall|k: int| 0 <= k < j ==> s@[k] != c,
        decreases upto - j,
    {
        if s.get_char(j) == c {
            proof {
                assert(s@.take(upto as int)[j as int] == c);
            }
            return true;
        }
        j = j + 1;
    }
    proof {
        assert forall|k: int| 0 <= k < upto implies s@.take(upto as int)[k] != c by {}
    }
    false
}

/// Counts the characters of `s` that lie inside (`shared == true`) or
/// outside (`shared == false`) the character set of `other`.
fn count_side(s: &str, other: &str, shared: bool) -> (r: usize)
    ensures
        shared ==> r == char_set(s@).intersect(char_set(other@)).len(),
        !shared ==> r == char_set(s@).difference(char_set(other@)).len(),
        r <= 0x110000,
{
    let n = s.unicode_len();
    let m = other.unicode_len();
    let ghost bset = char_set(other@);
    let mut i: usize = 0;
    let mut cnt: usize = 0;
    proof {
        assert(s@.take(0) =~= Seq::<char>::empty());
        assert(s@.take(0).to_set() =~= Set::<char>::empty());
        assert(Set::<char>::empty().intersect(bset) =~= Set::<char>::empty());
        assert(Set::<char>::empty().difference(bset) =~= Set::<char>::empty());
    }
    while i < n
        invariant
            i <= n,
            n == s@.len(),
            m == other@.len(),
            bset == char_set(other@),
            shared ==> cnt == s@.take(i as int).to_set().intersect(bset).len(),
            !shared ==> cnt == s@.take(i as int).to_set().difference(bset).len(),
            cnt <= 0x110000,
        decreases n - i,
    {
        let c = s.get_char(i);
        let fresh = !has_char(s, i, c);
        let in_other = has_char(other, m, c);
        proof {
            assert(other@.take(m as int) =~= other@);
            lemma_take_to_set_step(s@, i as int);
            let prev = s@.take(i as int).to_set();
            let next = s@.take(i as int + 1).to_set();
            lemma_char_set_bound(next);
            if in_other {
                assert(next.intersect(bset) =~= prev.intersect(bset).insert(c));
                assert(next.difference(bset) =~= prev.difference(bset));
            } else {
                assert(next.intersect(bset) =~= prev.intersect(bset));
                assert(next.difference(bset) =~= prev.difference(bset).insert(c));
            }
            assert(prev.intersect(bset).subset_of(next));
            lemma_len_subset(prev.intersect(bset), next);
            assert(prev.difference(bset).subset_of(next));
            lemma_len_subset(prev.difference(bset), next);
            lemma_char_set_bound(next.intersect(bset));
            lemma_char_set_bound(next.difference(bset));
            assert(next.intersect(bset).subset_of(next));
            lemma_len_subset(next.intersect(bset), next);
            assert(next.difference(bset).subset_of(next));
            lemma_len_subset(next.difference(bset), next);
        }
        if fresh && (in_other == shared) {
            cnt = cnt + 1;
        }
        i = i + 1;
    }
    proof {
        assert(s@.take(n as int) =~= s@);
    }
    cnt
}

/// The scorer: the pair `(overlap, union)` of the character sets of `a`
/// and `q`, the exact value the distance `1 - overlap/union` is built
/// from.
pub fn score(a: &str, q: &str) -> (k: (usize, usize))
    ensures
        k.0 == overlap(a@, q@),
        k.1 == union_size(a@, q@),
        k.0 <= k.1,
        k.1 <= 0x330000,
{
    let shared = count_side(a, q, true);
    let only_a = count_side(a, q, false);
    let only_q = count_side(q, a, false);
    proof {
        lemma_union_partition(char_set(a@), char_set(q@));
        lemma_overlap_le_union(a@, q@);
    }
    (shared, shared + only_a + only_q)
}

/// Compares two score pairs as the distances they denote.
pub fn score_le(ka: (usize, usize), kb: (usize, usize)) -> (r: bool)
    requires
        ka.0 <= ka.1,
        ka.1 <= 0x330000,
        kb.0 <= kb.1,
        kb.1 <= 0x330000,
    ensures
        r == frac_le(ka.0 as int, ka.1 as int, kb.0 as int, kb.1 as int),
{
    if ka.1 == 0 {
        true
    } else if kb.1 == 0 {
        false
    } else {
        let da = ka.1 - ka.0;
        let db = kb.1 - kb.0;
        proof {
            assert((da as int) * (kb.1 as int) <= 0x330000 * 0x330000) by (nonlinear_arith)
                requires
                    0 <= (da as int) <= 0x330000,
                    0 <= (kb.1 as int) <= 0x330000,
            ;
            assert((db as int) * (ka.1 as int) <= 0x330000 * 0x330000) by (nonlinear_arith)
                requires
                    0 <= (db as int) <= 0x330000,
                    0 <= (ka.1 as int) <= 0x330000,
            ;
        }
        let left = (da as u64) * (kb.1 as u64);
        let right = (db as u64) * (ka.1 as u64);
        left <= right
    }
}

} // verus!
