//! Matching a file's base name against search terms by prefix.

use vstd::prelude::*;
use vstd::string::StrSliceExecFns;

verus! {

broadcast use vstd::seq_lib::group_to_multiset_ensures;

/// `t` is a prefix of `s`, character by character.
pub open spec fn is_prefix(t: Seq<char>, s: Seq<char>) -> bool {
    t.len() <= s.len() && s.subrange(0, t.len() as int) == t
}

/// Each term is at least as long (in characters) as every term after it.
pub open spec fn longest_first(ts: Seq<String>) -> bool {
    forall|i: int, j: int| 0 <= i < j < ts.len() ==> #[trigger] ts[j]@.len() <= #[trigger] ts[i]@.len()
}

/// Some term of `ts` is a prefix of `name`.
pub open spec fn has_match(name: Seq<char>, ts: Seq<String>) -> bool {
    exists|j: int| 0 <= j < ts.len() && is_prefix(#[trigger] ts[j]@, name)
}

/// The index of the first term at or after `i` that is a prefix of `name`.
pub open spec fn first_match_from(name: Seq<char>, ts: Seq<String>, i: int) -> Option<int>
    decreases ts.len() - i,
{
    if i < 0 || i >= ts.len() {
        None
    } else if is_prefix(ts[i]@, name) {
        Some(i)
    } else {
        first_match_from(name, ts, i + 1)
    }
}

/// The index of the first term of `ts` that is a prefix of `name`.
pub open spec fn first_match(name: Seq<char>, ts: Seq<String>) -> Option<int> {
    first_match_from(name, ts, 0)
}

/// `t` is one of the terms, a prefix of `name`, and no matching term is longer.
pub open spec fn is_longest_match(name: Seq<char>, ts: Seq<String>, t: Seq<char>) -> bool {
    &&& exists|j: int| 0 <= j < ts.len() && #[trigger] ts[j]@ == t
    &&& is_prefix(t, name)
    &&& forall|j: int|
        0 <= j < ts.len() && is_prefix(#[trigger] ts[j]@, name) ==> ts[j]@.len() <= t.len()
}

/// The longest term of `ts` that is a prefix of `name`, if any term is.
pub open spec fn longest_match(name: Seq<char>, ts: Seq<String>) -> Option<Seq<char>> {
    if exists|t: Seq<char>| is_longest_match(name, ts, t) {
        Some(choose|t: Seq<char>| is_longest_match(name, ts, t))
    } else {
        None
    }
}

/// What the recursive search for a first match finds, stated directly.
pub proof fn lemma_first_match_from(name: Seq<char>, ts: Seq<String>, i: int)
    requires
        0 <= i,
    ensures
        match first_match_from(name, ts, i) {
            Some(k) => i <= k < ts.len() && is_prefix(ts[k]@, name) && forall|j: int|
                i <= j < k ==> !is_prefix(#[trigger] ts[j]@, name),
            None => forall|j: int| i <= j < ts.len() ==> !is_prefix(#[trigger] ts[j]@, name),
        },
    decreases ts.len() - i,
{
    if i < ts.len() && !is_prefix(ts[i]@, name) {
        lemma_first_match_from(name, ts, i + 1);
    }
}

/// Two prefixes of one name that have the same length are the same.
pub proof fn lemma_prefix_unique(name: Seq<char>, t: Seq<char>, u: Seq<char>)
    requires
        is_prefix(t, name),
        is_prefix(u, name),
        t.len() == u.len(),
    ensures
        t == u,
{
    assert(t =~= u);
}

/// Taking the first matching term of a list ordered longest first picks the
/// longest term of the original list that the name begins with; there is a
/// pick exactly when some term matches.
pub proof fn lemma_first_hit_is_longest(name: Seq<char>, terms: Seq<String>, sorted: Seq<String>)
    requires
        sorted.to_multiset() == terms.to_multiset(),
        longest_first(sorted),
    ensures
        first_match(name, sorted) is Some <==> has_match(name, terms),
        match first_match(name, sorted) {
            Some(k) => longest_match(name, terms) == Some(sorted[k]@),
            None => longest_match(name, terms) is None,
        },
{
    lemma_first_match_from(name, sorted, 0);
    match first_match(name, sorted) {
        Some(k) => {
            let t = sorted[k]@;
            assert(sorted.contains(sorted[k]));
            assert(sorted.to_multiset().count(sorted[k]) > 0);
            assert(terms.contains(sorted[k]));
            let jt = choose|j: int| 0 <= j < terms.len() && terms[j] == sorted[k];
            assert(terms[jt]@ == t);
            assert forall|j: int| 0 <= j < terms.len() && is_prefix(#[trigger] terms[j]@, name)
                implies terms[j]@.len() <= t.len() by {
                assert(terms.contains(terms[j]));
                assert(terms.to_multiset().count(terms[j]) > 0);
                assert(sorted.contains(terms[j]));
                let m = choose|m: int| 0 <= m < sorted.len() && sorted[m] == terms[j];
                if m < k {
                    assert(!is_prefix(sorted[m]@, name));
                } else if m > k {
                    assert(sorted[m]@.len() <= sorted[k]@.len());
                }
            }
            assert(is_longest_match(name, terms, t));
            assert(has_match(name, terms));
            let c = choose|c: Seq<char>| is_longest_match(name, terms, c);
            let jc = choose|j: int| 0 <= j < terms.len() && #[trigger] terms[j]@ == c;
            assert(c.len() <= t.len());
            assert(t.len() <= c.len());
            lemma_prefix_unique(name, t, c);
        },
        None => {
            assert forall|j: int| 0 <= j < terms.len() implies !is_prefix(
                #[trigger] terms[j]@,
                name,
            ) by {
                assert(terms.contains(terms[j]));
                assert(terms.to_multiset().count(terms[j]) > 0);
                assert(sorted.contains(terms[j]));
                let m = choose|m: int| 0 <= m < sorted.len() && sorted[m] == terms[j];
                assert(!is_prefix(sorted[m]@, name));
            }
            assert forall|t: Seq<char>| !is_longest_match(name, terms, t) by {
                if is_longest_match(name, terms, t) {
                    let j = choose|j: int| 0 <= j < terms.len() && #[trigger] terms[j]@ == t;
                    assert(!is_prefix(terms[j]@, name));
                }
            }
        },
    }
}

/// Relies on `str::strip_prefix`: `Some` of the rest of `s` exactly when `s`
/// begins with `p`.
#[verifier::external_body]
fn strip_prefix_of(s: &str, p: &str) -> (r: Option<String>)
    ensures
        r is Some <==> is_prefix(p@, s@),
        r matches Some(rest) ==> rest@ == s@.subrange(p@.len() as int, s@.len() as int),
{
    match s.strip_prefix(p) {
        Some(rest) => Some(rest.to_string()),
        None => None,
    }
}

/// The first term that `name` begins with, by index, with what follows it in
/// `name`.
pub fn find_match(name: &str, terms: &Vec<String>) -> (r: Option<(usize, String)>)
    ensures
        match r {
            Some((i, rest)) => i < terms@.len() && first_match(name@, terms@) == Some(i as int) && rest@
                == name@.subrange(terms@[i as int]@.len() as int, name@.len() as int),
            None => first_match(name@, terms@) is None,
        },
{
    let mut i: usize = 0;
    while i < terms.len()
        invariant
            i <= terms.len(),
            first_match(name@, terms@) == first_match_from(name@, terms@, i as int),
        decreases terms.len() - i,
    {
        match strip_prefix_of(name, terms[i].as_str()) {
            Some(rest) => {
                return Some((i, rest));
            },
            None => {},
        }
        i = i + 1;
    }
    None
}

/// The terms reordered longest first; terms of equal length keep their order.
pub fn sort_longest_first(terms: &Vec<String>) -> (r: Vec<String>)
    ensures
        r@.to_multiset() == terms@.to_multiset(),
        longest_first(r@),
{
    let mut out: Vec<String> = Vec::new();
    let mut i: usize = 0;
    while i < terms.len()
        invariant
            i <= terms.len(),
            out@.to_multiset() == terms@.subrange(0, i as int).to_multiset(),
            longest_first(out@),
        decreases terms.len() - i,
    {
        let t = terms[i].clone();
        let n = t.as_str().unicode_len();
        let mut p: usize = 0;
        while p < out.len() && out[p].as_str().unicode_len() >= n
            invariant
                p <= out.len(),
                n == t@.len(),
                forall|q: int| 0 <= q < p ==> #[trigger] out@[q]@.len() >= t@.len(),
            decreases out.len() - p,
        {
            p = p + 1;
        }
        let ghost before = out@;
        out.insert(p, t);
        proof {
            assert(out@.remove(p as int) =~= before);
            assert(out@[p as int] == t);
            assert(out@.to_multiset() =~= before.to_multiset().insert(t)) by {
                assert(out@.remove(p as int).to_multiset() =~= out@.to_multiset().remove(t));
                assert(out@.to_multiset().count(t) > 0) by {
                    assert(out@.contains(t));
                }
            }
            assert(terms@.subrange(0, i + 1) =~= terms@.subrange(0, i as int).push(terms@[i as int]));
            assert forall|a: int, b: int| 0 <= a < b < out@.len() implies #[trigger] out@[b]@.len()
                <= #[trigger] out@[a]@.len() by {
                if b < p {
                } else if b == p {
                } else if a < p {
                } else if a == p {
                    if p < before.len() {
                        assert(before[p as int]@.len() < t@.len());
                        assert(before[b - 1]@.len() <= before[p as int]@.len());
                    }
                } else {
                    assert(before[b - 1]@.len() <= before[a - 1]@.len());
                }
            }
        }
        i = i + 1;
    }
    assert(terms@.subrange(0, terms@.len() as int) =~= terms@);
    out
}

} // verus!
