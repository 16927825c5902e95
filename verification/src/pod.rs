//! One pod's status line, and the parser that reads it from the tabular
//! listing the cluster returns: nine whitespace-separated fields in a
//! fixed order.  A line with any other field count is malformed.

use vstd::prelude::*;

verus! {

/// A snapshot of one pod's status line.  Every field is an opaque
/// display string except `name`, the only field used for matching.
pub struct PodInfo {
    pub name: String,
    pub ready: String,
    pub status: String,
    pub restarts: String,
    pub age: String,
    pub ip: String,
    pub node: String,
    pub nominated_node: String,
    pub readiness_gates: String,
}

impl Clone for PodInfo {
    fn clone(&self) -> (res: Self)
        ensures
            res == *self,
    {
        PodInfo {
            name: self.name.clone(),
            ready: self.ready.clone(),
            status: self.status.clone(),
            restarts: self.restarts.clone(),
            age: self.age.clone(),
            ip: self.ip.clone(),
            node: self.node.clone(),
            nominated_node: self.nominated_node.clone(),
            readiness_gates: self.readiness_gates.clone(),
        }
    }
}

/// A listing line that does not decompose into the expected nine fields.
#[derive(Clone, Copy, Debug)]
pub struct ListingParseError;

/// The field separators of the listing format.
pub open spec fn is_space(c: char) -> bool {
    c == ' ' || c == '\t' || c == '\r' || c == '\n'
}

/// Length of the maximal run of non-space characters at the front of `s`.
pub open spec fn token_len(s: Seq<char>) -> nat
    decreases s.len(),
{
    if s.len() > 0 && !is_space(s[0]) {
        1 + token_len(s.drop_first())
    } else {
        0
    }
}

/// The whitespace-separated fields of `s`, in order.
pub open spec fn fields_of(s: Seq<char>) -> Seq<Seq<char>>
    decreases s.len(),
    via fields_of_decreases
{
    if s.len() == 0 {
        Seq::empty()
    } else if is_space(s[0]) {
        fields_of(s.drop_first())
    } else {
        seq![s.take(token_len(s) as int)] + fields_of(s.skip(token_len(s) as int))
    }
}

#[via_fn]
proof fn fields_of_decreases(s: Seq<char>) {
    if s.len() > 0 && !is_space(s[0]) {
        lemma_token_len_le(s);
        assert(token_len(s) >= 1);
        assert(s.skip(token_len(s) as int).len() < s.len());
    }
}

/// The leading token is never longer than the whole string.
pub proof fn lemma_token_len_le(s: Seq<char>)
    ensures
        token_len(s) <= s.len(),
    decreases s.len(),
{
    if s.len() > 0 && !is_space(s[0]) {
        lemma_token_len_le(s.drop_first());
    }
}

/// A maximal non-space run of length `j` at the front of `s` is the
/// leading token.
proof fn lemma_token_run(s: Seq<char>, j: int)
    requires
        0 <= j <= s.len(),
        forall|k: int| 0 <= k < j ==> !is_space(s[k]),
        j == s.len() || is_space(s[j]),
    ensures
        token_len(s) == j,
    decreases j,
{
    if j == 0 {
    } else {
        let t = s.drop_first();
        assert(forall|k: int| 0 <= k < t.len() ==> t[k] == s[k + 1]);
        lemma_token_run(t, j - 1);
    }
}

/// True of `c` exactly when `is_space` holds of it.
pub fn is_space_char(c: char) -> (r: bool)
    ensures
        r == is_space(c),
{
    c == ' ' || c == '\t' || c == '\r' || c == '\n'
}

/// Splits `s` into its whitespace-separated fields, in order.
pub fn split_fields(s: &str) -> (r: Vec<String>)
    ensures
        r@.map_values(|t: String| t@) == fields_of(s@),
    decreases s@.len(),
{
    let n = s.unicode_len();
    if n == 0 {
        let r: Vec<String> = Vec::new();
        proof {
            assert(r@.map_values(|t: String| t@) =~= fields_of(s@));
        }
        r
    } else if is_space_char(s.get_char(0)) {
        let rest = s.substring_char(1, n);
        proof {
            assert(rest@ =~= s@.drop_first());
        }
        split_fields(rest)
    } else {
        let mut j: usize = 1;
        loop
            invariant
                1 <= j <= n,
                n == s@.len(),
                forall|k: int| 0 <= k < j ==> !is_space(s@[k]),
            ensures
                1 <= j <= n,
                forall|k: int| 0 <= k < j ==> !is_space(s@[k]),
                j == n || is_space(s@[j as int]),
            decreases n - j,
        {
            if j < n && !is_space_char(s.get_char(j)) {
                j = j + 1;
            } else {
                break;
            }
        }
        proof {
            lemma_token_run(s@, j as int);
        }
        let tok = s.substring_char(0, j).to_owned();
        let rest = s.substring_char(j, n);
        let mut r = split_fields(rest);
        r.insert(0, tok);
        proof {
            assert(rest@ =~= s@.skip(j as int));
            assert(r@.map_values(|t: String| t@) =~= seq![s@.take(j as int)] + fields_of(
                s@.skip(j as int),
            ));
        }
        r
    }
}

/// Builds a record from the nine fields of one listing line.
pub fn from_fields(fields: &Vec<String>) -> (r: PodInfo)
    requires
        fields@.len() == 9,
    ensures
        r.name@ == fields@[0]@,
        r.ready@ == fields@[1]@,
        r.status@ == fields@[2]@,
        r.restarts@ == fields@[3]@,
        r.age@ == fields@[4]@,
        r.ip@ == fields@[5]@,
        r.node@ == fields@[6]@,
        r.nominated_node@ == fields@[7]@,
        r.readiness_gates@ == fields@[8]@,
{
    PodInfo {
        name: fields[0].clone(),
        ready: fields[1].clone(),
        status: fields[2].clone(),
        restarts: fields[3].clone(),
        age: fields[4].clone(),
        ip: fields[5].clone(),
        node: fields[6].clone(),
        nominated_node: fields[7].clone(),
        readiness_gates: fields[8].clone(),
    }
}

/// Reads one listing line whose field count is known to be nine.
pub fn convert_to_kub_info(s: &str) -> (r: PodInfo)
    requires
        fields_of(s@).len() == 9,
    ensures
        r.name@ == fields_of(s@)[0],
        r.ready@ == fields_of(s@)[1],
        r.status@ == fields_of(s@)[2],
        r.restarts@ == fields_of(s@)[3],
        r.age@ == fields_of(s@)[4],
        r.ip@ == fields_of(s@)[5],
        r.node@ == fields_of(s@)[6],
        r.nominated_node@ == fields_of(s@)[7],
        r.readiness_gates@ == fields_of(s@)[8],
{
    let fields = split_fields(s);
    from_fields(&fields)
}

/// Reads one listing line, rejecting a malformed one: the result is
/// `Ok` exactly when the line has nine whitespace-separated fields.
pub fn parse_pod_line(s: &str) -> (r: Result<PodInfo, ListingParseError>)
    ensures
        r is Ok <==> fields_of(s@).len() == 9,
        r matches Ok(p) ==> {
            &&& p.name@ == fields_of(s@)[0]
            &&& p.ready@ == fields_of(s@)[1]
            &&& p.status@ == fields_of(s@)[2]
            &&& p.restarts@ == fields_of(s@)[3]
            &&& p.age@ == fields_of(s@)[4]
            &&& p.ip@ == fields_of(s@)[5]
            &&& p.node@ == fields_of(s@)[6]
            &&& p.nominated_node@ == fields_of(s@)[7]
            &&& p.readiness_gates@ == fields_of(s@)[8]
        },
{
    let fields = split_fields(s);
    if fields.len() == 9 {
        Ok(from_fields(&fields))
    } else {
        Err(ListingParseError)
    }
}

/// The tab-joined display form of the record, in listing order.
pub fn display_line(p: &PodInfo) -> (r: String)
    ensures
        r@ == p.name@ + "\t"@ + p.ready@ + "\t"@ + p.status@ + "\t"@ + p.restarts@ + "\t"@
            + p.age@ + "\t"@ + p.ip@ + "\t"@ + p.node@ + "\t"@ + p.nominated_node@ + "\t"@
            + p.readiness_gates@,
{
    let mut r = p.name.clone();
    r.append("\t");
    r.append(p.ready.as_str());
    r.append("\t");
    r.append(p.status.as_str());
    r.append("\t");
    r.append(p.restarts.as_str());
    r.append("\t");
    r.append(p.age.as_str());
    r.append("\t");
    r.append(p.ip.as_str());
    r.append("\t");
    r.append(p.node.as_str());
    r.append("\t");
    r.append(p.nominated_node.as_str());
    r.append("\t");
    r.append(p.readiness_gates.as_str());
    r
}

} // verus!
