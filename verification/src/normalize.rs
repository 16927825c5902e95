//! The name normalizer: inserts a configured infix ("middle name") in
//! front of the trailing run of decimal digits of a fragment, so that a
//! short alias such as `kg2` can stand for a deployment name such as
//! `kg-sophon2`.

use vstd::prelude::*;

verus! {

/// A decimal digit, as the trailing-suffix split understands it.
pub open spec fn is_digit(c: char) -> bool {
    48 <= c as int && c as int <= 57
}

/// Length of the maximal run of decimal digits at the end of `s`.
pub open spec fn digit_suffix_len(s: Seq<char>) -> nat
    decreases s.len(),
{
    if s.len() > 0 && is_digit(s[s.len() - 1]) {
        1 + digit_suffix_len(s.drop_last())
    } else {
        0
    }
}

/// Index where the trailing digit run of `s` begins.
pub open spec fn suffix_start(s: Seq<char>) -> int {
    s.len() - digit_suffix_len(s)
}

/// `s` with `middle` inserted in front of its trailing digit run.
pub open spec fn inserted(s: Seq<char>, middle: Seq<char>) -> Seq<char> {
    s.subrange(0, suffix_start(s)) + middle + s.subrange(suffix_start(s), s.len() as int)
}

/// The trailing digit run is never longer than the whole string.
pub proof fn lemma_digit_suffix_len_le(s: Seq<char>)
    ensures
        digit_suffix_len(s) <= s.len(),
    decreases s.len(),
{
    if s.len() > 0 && is_digit(s[s.len() - 1]) {
        lemma_digit_suffix_len_le(s.drop_last());
    }
}

/// Everything in the trailing run is a digit, and the character just
/// before the run (when there is one) is not.
pub proof fn lemma_digit_suffix_chars(s: Seq<char>)
    ensures
        forall|j: int| suffix_start(s) <= j < s.len() ==> is_digit(s[j]),
        digit_suffix_len(s) < s.len() ==> !is_digit(s[suffix_start(s) - 1]),
    decreases s.len(),
{
    lemma_digit_suffix_len_le(s);
    if s.len() > 0 && is_digit(s[s.len() - 1]) {
        lemma_digit_suffix_chars(s.drop_last());
        lemma_digit_suffix_len_le(s.drop_last());
        assert(forall|j: int| 0 <= j < s.len() - 1 ==> s[j] == s.drop_last()[j]);
    }
}

/// A maximal digit run of `s` starting at `k` has length `s.len() - k`.
pub proof fn lemma_digit_run_at(s: Seq<char>, k: int)
    requires
        0 <= k <= s.len(),
        forall|j: int| k <= j < s.len() ==> is_digit(s[j]),
        k == 0 || !is_digit(s[k - 1]),
    ensures
        digit_suffix_len(s) == s.len() - k,
    decreases s.len(),
{
    if s.len() == k {
        if s.len() > 0 {
            assert(!is_digit(s[s.len() - 1]));
        }
    } else {
        assert(is_digit(s[s.len() - 1]));
        let t = s.drop_last();
        assert(forall|j: int| 0 <= j < t.len() ==> t[j] == s[j]);
        lemma_digit_run_at(t, k);
    }
}

/// True of `c` exactly when `is_digit` holds of it.
fn is_digit_char(c: char) -> (r: bool)
    ensures
        r == is_digit(c),
{
    let v = c as u32;
    48 <= v && v <= 57
}

/// Rewrites `pod_name` by inserting `middle_name` just before the
/// trailing run of decimal digits: `kg2` with `-sophon` becomes
/// `kg-sophon2`, and a name without trailing digits gets the infix
/// appended at the end.
pub fn filled_with_middle_name(pod_name: &str, middle_name: &str) -> (r: String)
    ensures
        r@ == inserted(pod_name@, middle_name@),
{
    let n = pod_name.unicode_len();
    let mut i: usize = n;
    loop
        invariant
            i <= n,
            n == pod_name@.len(),
            forall|j: int| i <= j < n ==> is_digit(pod_name@[j]),
        ensures
            i == 0 || !is_digit(pod_name@[i - 1]),
        decreases i,
    {
        if i > 0 && is_digit_char(pod_name.get_char(i - 1)) {
            i = i - 1;
        } else {
            break;
        }
    }
    proof {
        lemma_digit_run_at(pod_name@, i as int);
    }
    let prefix = pod_name.substring_char(0, i);
    let digits = pod_name.substring_char(i, n);
    let mut r = prefix.to_owned();
    r.append(middle_name);
    r.append(digits);
    r
}

/// Inserting the infix adds exactly its length: the result is as long as
/// the fragment and the infix together.
pub proof fn lemma_inserted_len(s: Seq<char>, middle: Seq<char>)
    ensures
        inserted(s, middle).len() == s.len() + middle.len(),
{
    lemma_digit_suffix_len_le(s);
}

/// As long as the infix does not itself end in a digit, inserting it
/// leaves the trailing digit run of the fragment unchanged.
pub proof fn lemma_inserted_digit_run(s: Seq<char>, middle: Seq<char>)
    requires
        middle.len() > 0 ==> !is_digit(middle[middle.len() - 1]),
    ensures
        digit_suffix_len(inserted(s, middle)) == digit_suffix_len(s),
{
    lemma_digit_suffix_len_le(s);
    lemma_digit_suffix_chars(s);
    let r = inserted(s, middle);
    let k = suffix_start(s) + middle.len();
    assert forall|j: int| k <= j < r.len() implies is_digit(r[j]) by {
        assert(r[j] == s[j - middle.len()]);
    }
    if k > 0 {
        if middle.len() > 0 {
            assert(r[k - 1] == middle[middle.len() - 1]);
        } else {
            assert(r[k - 1] == s[suffix_start(s) - 1]);
        }
    }
    lemma_digit_run_at(r, k);
}

} // verus!
