//! One run of a search: every file name against the terms, with the count of
//! matching files, the hits to show and the terms that matched nothing.

use vstd::prelude::*;
use crate::matching::{
    find_match, first_match, has_match, is_prefix, lemma_first_hit_is_longest, longest_match,
    sort_longest_first,
};

verus! {

/// One matching file: its index among the names searched, the term that
/// claimed it, and the rest of the name after that term.
pub struct Hit {
    pub file: usize,
    pub term: String,
    pub rest: String,
}

/// What a run found. In quiet mode only the count is kept, and the scan stops
/// at the first matching file.
pub struct Outcome {
    pub quiet: bool,
    pub n_found: usize,
    pub hits: Vec<Hit>,
    pub unmatched: Vec<String>,
}

/// The texts of the strings of `v`, as a set.
pub open spec fn views_set(v: Seq<String>) -> Set<Seq<char>> {
    Set::new(|t: Seq<char>| exists|m: int| 0 <= m < v.len() && #[trigger] v[m]@ == t)
}

/// No two strings of `v` hold the same text.
pub open spec fn distinct_views(v: Seq<String>) -> bool {
    forall|a: int, b: int| 0 <= a < b < v.len() ==> #[trigger] v[a]@ != #[trigger] v[b]@
}

/// The indices, in order, of the first `n` names that some term matches.
pub open spec fn hit_files_upto(names: Seq<String>, terms: Seq<String>, n: int) -> Seq<int>
    decreases n,
{
    if n <= 0 {
        Seq::empty()
    } else if has_match(names[n - 1]@, terms) {
        hit_files_upto(names, terms, n - 1).push(n - 1)
    } else {
        hit_files_upto(names, terms, n - 1)
    }
}

/// The indices, in order, of all names that some term matches.
pub open spec fn hit_files(names: Seq<String>, terms: Seq<String>) -> Seq<int> {
    hit_files_upto(names, terms, names.len() as int)
}

/// The terms that claimed at least one of the first `n` names.
pub open spec fn matched_terms_upto(names: Seq<String>, terms: Seq<String>, n: int) -> Set<
    Seq<char>,
> {
    Set::new(
        |t: Seq<char>|
            exists|j: int| 0 <= j < n && #[trigger] longest_match(names[j]@, terms) == Some(t),
    )
}

/// The terms that claimed at least one name.
pub open spec fn matched_terms(names: Seq<String>, terms: Seq<String>) -> Set<Seq<char>> {
    matched_terms_upto(names, terms, names.len() as int)
}

/// The number of matching files that a run reports.
pub open spec fn found(names: Seq<String>, terms: Seq<String>, quiet: bool) -> nat {
    let n = hit_files(names, terms).len();
    if quiet {
        if n > 0 {
            1
        } else {
            0
        }
    } else {
        n
    }
}

/// The process status of a run: quiet mode fails when nothing was found.
pub open spec fn exit_status(n_found: nat, quiet: bool) -> int {
    if quiet && n_found == 0 {
        1
    } else {
        0
    }
}

/// `h` names a file of `names`, the longest term that the file's name begins
/// with, and the rest of that name.
pub open spec fn hit_ok(names: Seq<String>, terms: Seq<String>, h: Hit) -> bool {
    &&& 0 <= h.file < names.len()
    &&& longest_match(names[h.file as int]@, terms) == Some(h.term@)
    &&& names[h.file as int]@ == h.term@ + h.rest@
}

/// Counting more names never finds fewer matching files.
pub proof fn lemma_hit_files_grow(names: Seq<String>, terms: Seq<String>, a: int, b: int)
    requires
        a <= b,
    ensures
        hit_files_upto(names, terms, a).len() <= hit_files_upto(names, terms, b).len(),
    decreases b - a,
{
    if a < b {
        lemma_hit_files_grow(names, terms, a, b - 1);
    }
}

/// Quiet mode exits with success exactly when a full run would report at
/// least one matching file.
pub proof fn lemma_quiet_status_agrees(names: Seq<String>, terms: Seq<String>)
    ensures
        exit_status(found(names, terms, true), true) == 0 <==> found(names, terms, false) > 0,
{
}

/// Adding a string adds its text to the set of texts.
pub proof fn lemma_views_set_push(v: Seq<String>, x: String)
    ensures
        views_set(v.push(x)) == views_set(v).insert(x@),
{
    assert forall|s: Seq<char>| #[trigger] views_set(v).contains(s) implies views_set(
        v.push(x),
    ).contains(s) by {
        let m = choose|m: int| 0 <= m < v.len() && #[trigger] v[m]@ == s;
        assert(v.push(x)[m]@ == s);
    }
    assert(v.push(x)[v.len() as int]@ == x@);
    assert forall|s: Seq<char>| #[trigger]
        views_set(v.push(x)).contains(s) && s != x@ implies views_set(v).contains(s) by {
        let m = choose|m: int| 0 <= m < v.len() + 1 && #[trigger] v.push(x)[m]@ == s;
        assert(v[m]@ == s);
    }
    assert(views_set(v.push(x)) =~= views_set(v).insert(x@));
}

/// Whether some string of `v` holds the text of `t`.
fn contains_text(v: &Vec<String>, t: &String) -> (r: bool)
    ensures
        r == views_set(v@).contains(t@),
{
    let mut i: usize = 0;
    while i < v.len()
        invariant
            i <= v.len(),
            forall|m: int| 0 <= m < i ==> #[trigger] v@[m]@ != t@,
        decreases v.len() - i,
    {
        if v[i] == *t {
            return true;
        }
        i = i + 1;
    }
    false
}

/// Runs the terms, longest first, over the file names. Each name is claimed
/// by the longest term it begins with, if any. Outside quiet mode every hit is
/// kept in the order of the names, and the terms that claimed no name are
/// listed once each; in quiet mode the count is 1 or 0 and nothing is listed.
pub fn search(terms: &Vec<String>, names: &Vec<String>, quiet: bool) -> (o: Outcome)
    ensures
        o.quiet == quiet,
        o.n_found == found(names@, terms@, quiet),
        quiet ==> o.hits@.len() == 0 && o.unmatched@.len() == 0,
        !quiet ==> o.hits@.len() == hit_files(names@, terms@).len(),
        !quiet ==> forall|k: int|
            0 <= k < o.hits@.len() ==> (#[trigger] o.hits@[k]).file == hit_files(names@, terms@)[k]
                && hit_ok(names@, terms@, o.hits@[k]),
        !quiet ==> views_set(o.unmatched@) == views_set(terms@).difference(
            matched_terms(names@, terms@),
        ),
        distinct_views(o.unmatched@),
{
    let sorted = sort_longest_first(terms);
    let mut hits: Vec<Hit> = Vec::new();
    let mut seen: Vec<String> = Vec::new();
    let mut n: usize = 0;
    let mut j: usize = 0;
    while j < names.len()
        invariant
            j <= names.len(),
            sorted@.to_multiset() == terms@.to_multiset(),
            crate::matching::longest_first(sorted@),
            n <= j,
            views_set(seen@) == matched_terms_upto(names@, terms@, j as int),
            quiet ==> hits@.len() == 0 && n == 0 && hit_files_upto(names@, terms@, j as int).len()
                == 0,
            !quiet ==> n == hits@.len() && hits@.len() == hit_files_upto(
                names@,
                terms@,
                j as int,
            ).len(),
            !quiet ==> forall|k: int|
                0 <= k < hits@.len() ==> (#[trigger] hits@[k]).file == hit_files_upto(
                    names@,
                    terms@,
                    j as int,
                )[k] && hit_ok(names@, terms@, hits@[k]),
        decreases names.len() - j,
    {
        let name = names[j].as_str();
        let ghost before_seen = seen@;
        proof {
            lemma_first_hit_is_longest(names@[j as int]@, terms@, sorted@);
        }
        match find_match(name, &sorted) {
            Some((k, rest)) => {
                let term = sorted[k].clone();
                proof {
                    assert(is_prefix(term@, names@[j as int]@));
                    assert(names@[j as int]@ =~= term@ + rest@);
                }
                seen.push(term.clone());
                proof {
                    lemma_views_set_push(before_seen, term);
                    assert(matched_terms_upto(names@, terms@, j + 1) =~= matched_terms_upto(
                        names@,
                        terms@,
                        j as int,
                    ).insert(term@)) by {
                        assert(longest_match(names@[j as int]@, terms@) == Some(term@));
                    }
                }
                if !quiet {
                    hits.push(Hit { file: j, term, rest });
                }
                n = n + 1;
            },
            None => {
                proof {
                    assert(matched_terms_upto(names@, terms@, j + 1) =~= matched_terms_upto(
                        names@,
                        terms@,
                        j as int,
                    ));
                }
            },
        }
        j = j + 1;
        if quiet && n > 0 {
            proof {
                assert(hit_files_upto(names@, terms@, j as int).len() > 0);
                lemma_hit_files_grow(names@, terms@, j as int, names@.len() as int);
            }
            return Outcome { quiet, n_found: n, hits, unmatched: Vec::new() };
        }
    }
    let mut unmatched: Vec<String> = Vec::new();
    if !quiet {
        let mut i: usize = 0;
        while i < terms.len()
            invariant
                i <= terms.len(),
                views_set(seen@) == matched_terms(names@, terms@),
                j == names.len(),
                views_set(unmatched@) == views_set(terms@.subrange(0, i as int)).difference(
                    matched_terms(names@, terms@),
                ),
                distinct_views(unmatched@),
            decreases terms.len() - i,
        {
            let t = &terms[i];
            let ghost before = unmatched@;
            if !contains_text(&seen, t) && !contains_text(&unmatched, t) {
                unmatched.push(t.clone());
                proof {
                    lemma_views_set_push(before, *t);
                }
            }
            proof {
                assert(terms@.subrange(0, i + 1) =~= terms@.subrange(0, i as int).push(*t));
                lemma_views_set_push(terms@.subrange(0, i as int), *t);
                assert(views_set(unmatched@) =~= views_set(terms@.subrange(0, i + 1)).difference(
                    matched_terms(names@, terms@),
                ));
            }
            i = i + 1;
        }
        assert(terms@.subrange(0, terms@.len() as int) =~= terms@);
    }
    Outcome { quiet, n_found: n, hits, unmatched }
}

impl Outcome {
    /// The process status: quiet mode fails when nothing was found; otherwise
    /// the run succeeds.
    pub fn exit_code(&self) -> (r: i32)
        ensures
            r as int == exit_status(self.n_found as nat, self.quiet),
    {
        if self.quiet && self.n_found == 0 {
            1
        } else {
            0
        }
    }
}

} // verus!
