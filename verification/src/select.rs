//! The disambiguation rules: the bounded alphabetic label list, the
//! environment-tunable candidate window, and the reading of the
//! operator's one-character choice, including the reserved `z` that
//! applies the action to every displayed candidate.

use crate::normalize::is_digit;
use crate::pod::is_space;
use vstd::prelude::*;

verus! {

/// An operator input that fails the validity rule: not exactly one
/// character, or a character outside the displayed labels and `z`.
#[derive(Clone, Copy, Debug)]
pub struct InvalidSelection;

/// A resolved choice: one displayed candidate, or all of them.
#[derive(Clone, Copy, PartialEq, Eq, Structural, Debug)]
pub enum Choice {
    All,
    At(usize),
}

/// The menu letters, in label order: the first 25 lowercase letters.
/// `z` never labels a candidate; it is reserved for "apply to all".
pub open spec fn label_chars() -> Seq<char> {
    "abcdefghijklmnopqrstuvwxy"@
}

/// The labels shown for `n` candidates: at most 25.
pub open spec fn labels_for(n: int) -> Seq<char> {
    label_chars().take(
        if n < 25 {
            n
        } else {
            25
        },
    )
}

/// The label list for a candidate window of `candidate_size`: one
/// lowercase letter per displayed candidate, `a` first, capped at 25.
pub fn get_candidate_option(candidate_size: usize) -> (r: String)
    ensures
        r@ == labels_for(candidate_size as int),
{
    let full = "abcdefghijklmnopqrstuvwxy";
    proof {
        reveal_strlit("abcdefghijklmnopqrstuvwxy");
    }
    let k = if candidate_size < 25 {
        candidate_size
    } else {
        25
    };
    let sub = full.substring_char(0, k);
    proof {
        assert(sub@ =~= labels_for(candidate_size as int));
    }
    sub.to_owned()
}

/// The numeric value of a digit string, most significant digit first.
pub open spec fn digits_value(s: Seq<char>) -> nat
    decreases s.len(),
{
    if s.len() == 0 {
        0
    } else {
        digits_value(s.drop_last()) * 10 + (s[s.len() - 1] as int - 48) as nat
    }
}

/// A non-empty string of decimal digits.
pub open spec fn is_digit_seq(s: Seq<char>) -> bool {
    s.len() > 0 && forall|i: int| 0 <= i < s.len() ==> is_digit(s[i])
}

/// The candidate window a configuration string denotes: its numeric
/// value clamped to at most 25, or the default 5 when the string is not
/// a number or is below 1.
pub open spec fn window_size_spec(s: Seq<char>) -> int {
    if is_digit_seq(s) && digits_value(s) >= 1 {
        if digits_value(s) < 25 {
            digits_value(s) as int
        } else {
            25
        }
    } else {
        5
    }
}

/// The candidate window size: the configured value when one is set and
/// parses to a number of at least 1, clamped to at most 25; the default
/// 5 otherwise.
pub fn get_candidate_size(env_value: Option<&str>) -> (r: usize)
    ensures
        r == match env_value {
            None => 5int,
            Some(s) => window_size_spec(s@),
        },
{
    let s = match env_value {
        None => {
            return 5;
        },
        Some(v) => v,
    };
    proof {
        assert(env_value == Some(s));
    }
    let n = s.unicode_len();
    if n == 0 {
        return 5;
    }
    let mut i: usize = 0;
    let mut acc: usize = 0;
    while i < n
        invariant
            env_value == Some(s),
            i <= n,
            n == s@.len(),
            forall|k: int| 0 <= k < i ==> is_digit(s@[k]),
            acc == if digits_value(s@.take(i as int)) < 26 {
                digits_value(s@.take(i as int))
            } else {
                26
            },
        decreases n - i,
    {
        let c = s.get_char(i);
        let v = c as u32;
        if v < 48 || v > 57 {
            proof {
                assert(!is_digit(s@[i as int]));
                assert(!is_digit_seq(s@));
                assert(window_size_spec(s@) == 5);
            }
            return 5;
        }
        let d = (v - 48) as usize;
        proof {
            assert(s@.take(i as int + 1).drop_last() =~= s@.take(i as int));
            assert(s@.take(i as int + 1)[i as int] == s@[i as int]);
        }
        let next = acc * 10 + d;
        acc = if next < 26 {
            next
        } else {
            26
        };
        i = i + 1;
    }
    proof {
        assert(s@.take(n as int) =~= s@);
    }
    if acc < 1 {
        5
    } else if acc < 25 {
        acc
    } else {
        25
    }
}

/// `s` with its leading spaces removed.
pub open spec fn trim_front(s: Seq<char>) -> Seq<char>
    decreases s.len(),
{
    if s.len() > 0 && is_space(s[0]) {
        trim_front(s.drop_first())
    } else {
        s
    }
}

/// `s` with its trailing spaces removed.
pub open spec fn trim_back(s: Seq<char>) -> Seq<char>
    decreases s.len(),
{
    if s.len() > 0 && is_space(s[s.len() - 1]) {
        trim_back(s.drop_last())
    } else {
        s
    }
}

/// `s` with spaces removed from both ends.
pub open spec fn trimmed(s: Seq<char>) -> Seq<char> {
    trim_back(trim_front(s))
}

/// A maximal run of `a` leading spaces trims to the rest of the string.
proof fn lemma_trim_front_at(s: Seq<char>, a: int)
    requires
        0 <= a <= s.len(),
        forall|k: int| 0 <= k < a ==> is_space(s[k]),
        a == s.len() || !is_space(s[a]),
    ensures
        trim_front(s) == s.skip(a),
    decreases a,
{
    if a == 0 {
        assert(s.skip(0) =~= s);
    } else {
        let t = s.drop_first();
        assert(forall|k: int| 0 <= k < t.len() ==> t[k] == s[k + 1]);
        lemma_trim_front_at(t, a - 1);
        assert(t.skip(a - 1) =~= s.skip(a));
    }
}

/// A maximal run of trailing spaces from `b` on trims to the front part.
proof fn lemma_trim_back_at(s: Seq<char>, b: int)
    requires
        0 <= b <= s.len(),
        forall|k: int| b <= k < s.len() ==> is_space(s[k]),
        b == 0 || !is_space(s[b - 1]),
    ensures
        trim_back(s) == s.take(b),
    decreases s.len(),
{
    if b == s.len() {
        if s.len() > 0 {
            assert(!is_space(s[s.len() - 1]));
        }
        assert(s.take(b) =~= s);
    } else {
        let t = s.drop_last();
        assert(forall|k: int| 0 <= k < t.len() ==> t[k] == s[k]);
        lemma_trim_back_at(t, b);
        assert(t.take(b) =~= s.take(b));
    }
}

/// The lowercase form of a letter; anything but an uppercase ASCII
/// letter is kept as it is.
pub open spec fn to_lower(c: char) -> char {
    if 65 <= c as int && c as int <= 90 {
        (((c as u32) + 32) as u8) as char
    } else {
        c
    }
}

/// True of `c` exactly as `to_lower` says.
fn to_lower_char(c: char) -> (r: char)
    ensures
        r == to_lower(c),
{
    let v = c as u32;
    if 65 <= v && v <= 90 {
        ((v + 32) as u8) as char
    } else {
        c
    }
}

/// What a raw input line chooses, over `shown` displayed candidates:
/// trimmed and lowercased it must be exactly one character, either `z`
/// (all displayed candidates) or one of the first `shown` labels.
/// Anything else is invalid.
pub open spec fn choice_spec(line: Seq<char>, shown: int) -> Option<Choice> {
    let t = trimmed(line);
    if t.len() != 1 {
        None
    } else {
        let c = to_lower(t[0]);
        let lim = if shown < 25 {
            shown
        } else {
            25
        };
        if c == 'z' {
            Some(Choice::All)
        } else if 97 <= c as int && (c as int) < 97 + lim {
            Some(Choice::At((c as int - 97) as usize))
        } else {
            None
        }
    }
}

/// Reads the operator's disambiguation input over `shown` displayed
/// candidates, as `choice_spec` says: `Err` exactly on invalid input.
pub fn parse_selection(input_line: &str, shown: usize) -> (r: Result<Choice, InvalidSelection>)
    ensures
        r is Ok <==> choice_spec(input_line@, shown as int) is Some,
        r matches Ok(c) ==> choice_spec(input_line@, shown as int) == Some(c),
{
    let n = input_line.unicode_len();
    let mut a: usize = 0;
    loop
        invariant
            a <= n,
            n == input_line@.len(),
            forall|k: int| 0 <= k < a ==> is_space(input_line@[k]),
        ensures
            a <= n,
            forall|k: int| 0 <= k < a ==> is_space(input_line@[k]),
            a == n || !is_space(input_line@[a as int]),
        decreases n - a,
    {
        if a < n && crate::pod::is_space_char(input_line.get_char(a)) {
            a = a + 1;
        } else {
            break;
        }
    }
    proof {
        lemma_trim_front_at(input_line@, a as int);
    }
    if a == n {
        proof {
            assert(input_line@.skip(n as int) =~= Seq::<char>::empty());
            assert(trimmed(input_line@).len() == 0);
        }
        return Err(InvalidSelection);
    }
    let mut b: usize = n;
    loop
        invariant
            a < b <= n,
            n == input_line@.len(),
            !is_space(input_line@[a as int]),
            forall|k: int| b <= k < n ==> is_space(input_line@[k]),
        ensures
            a < b <= n,
            forall|k: int| b <= k < n ==> is_space(input_line@[k]),
            !is_space(input_line@[b - 1]),
        decreases b,
    {
        if crate::pod::is_space_char(input_line.get_char(b - 1)) {
            proof {
                assert(b - 1 > a);
            }
            b = b - 1;
        } else {
            break;
        }
    }
    proof {
        let rest = input_line@.skip(a as int);
        assert(forall|k: int| 0 <= k < rest.len() ==> rest[k] == input_line@[a + k]);
        lemma_trim_back_at(rest, b - a);
        assert(trimmed(input_line@) == rest.take(b - a));
    }
    if b - a != 1 {
        return Err(InvalidSelection);
    }
    let c = input_line.get_char(a);
    proof {
        assert(trimmed(input_line@)[0] == input_line@[a as int]);
    }
    let cl = to_lower_char(c);
    if cl == 'z' {
        return Ok(Choice::All);
    }
    let v = cl as u32;
    let lim: u32 = if shown < 25 {
        shown as u32
    } else {
        25
    };
    if 97 <= v && v < 97 + lim {
        Ok(Choice::At((v - 97) as usize))
    } else {
        Err(InvalidSelection)
    }
}

} // verus!
