//! Search categories: each name stands for an ordered list of directories.

use vstd::prelude::*;

verus! {

/// A named group of root directories.
pub struct Category {
    pub name: String,
    pub dirs: Vec<String>,
}

/// What can go wrong when a run is set up.
pub enum SearchError {
    /// No category has the name that was asked for.
    CategoryNotFound(String),
}

/// The categories known to a run, each name at most once.
pub struct Config {
    categories: Vec<Category>,
}

/// Some category of `cs` is named `k`.
pub open spec fn has_name(cs: Seq<Category>, k: Seq<char>) -> bool {
    exists|i: int| 0 <= i < cs.len() && #[trigger] cs[i].name@ == k
}

impl View for Config {
    type V = Map<Seq<char>, Seq<String>>;

    /// Each category name mapped to its directories.
    closed spec fn view(&self) -> Map<Seq<char>, Seq<String>> {
        let cs = self.categories@;
        Map::new(
            |k: Seq<char>| has_name(cs, k),
            |k: Seq<char>|
                cs[choose|i: int| 0 <= i < cs.len() && #[trigger] cs[i].name@ == k].dirs@,
        )
    }
}

impl Default for Config {
    /// No categories at all.
    fn default() -> (r: Config)
        ensures
            r.wf(),
            r@ == Map::<Seq<char>, Seq<String>>::empty(),
    {
        let r = Config { categories: Vec::new() };
        assert(r@ =~= Map::<Seq<char>, Seq<String>>::empty());
        r
    }
}

impl Config {
    /// No two categories share a name.
    pub closed spec fn wf(&self) -> bool {
        forall|a: int, b: int|
            0 <= a < b < self.categories@.len() ==> #[trigger] self.categories@[a].name@
                != #[trigger] self.categories@[b].name@
    }

    /// A category's entry in the map is that of the one category with its name.
    proof fn lemma_entry(&self, i: int)
        requires
            self.wf(),
            0 <= i < self.categories@.len(),
        ensures
            self@.contains_key(self.categories@[i].name@),
            self@[self.categories@[i].name@] == self.categories@[i].dirs@,
    {
        let cs = self.categories@;
        let k = cs[i].name@;
        assert(has_name(cs, k));
        let c = choose|c: int| 0 <= c < cs.len() && #[trigger] cs[c].name@ == k;
        if c < i {
            assert(cs[c].name@ != cs[i].name@);
        } else if c > i {
            assert(cs[i].name@ != cs[c].name@);
        }
    }

    /// Where `name` names a category, its directories are replaced by `dirs`;
    /// otherwise a category is added.
    pub fn insert_category(&mut self, name: String, dirs: Vec<String>)
        requires
            old(self).wf(),
        ensures
            final(self).wf(),
            final(self)@ == old(self)@.insert(name@, dirs@),
    {
        let ghost pre = self.categories@;
        let mut i: usize = 0;
        while i < self.categories.len()
            invariant
                i <= self.categories@.len(),
                self.categories@ == pre,
                pre == old(self).categories@,
                old(self).wf(),
                forall|m: int| 0 <= m < i ==> #[trigger] pre[m].name@ != name@,
            decreases self.categories@.len() - i,
        {
            if self.categories[i].name == name {
                self.categories.set(i, Category { name, dirs });
                proof {
                    let cs = self.categories@;
                    assert forall|a: int, b: int| 0 <= a < b < cs.len() implies #[trigger] cs[a].name@
                        != #[trigger] cs[b].name@ by {
                        assert(pre[a].name@ != pre[b].name@);
                    }
                    assert forall|k: Seq<char>| has_name(cs, k) <==> has_name(pre, k) by {
                        if has_name(pre, k) {
                            let m = choose|m: int| 0 <= m < pre.len() && #[trigger] pre[m].name@ == k;
                            assert(cs[m].name@ == k);
                        }
                        if has_name(cs, k) {
                            let m = choose|m: int| 0 <= m < cs.len() && #[trigger] cs[m].name@ == k;
                            assert(pre[m].name@ == k);
                        }
                    }
                    assert forall|k: Seq<char>| #[trigger] self@.contains_key(k) implies self@[k]
                        == old(self)@.insert(name@, dirs@)[k] by {
                        let m = choose|m: int| 0 <= m < cs.len() && #[trigger] cs[m].name@ == k;
                        self.lemma_entry(m);
                        if m != i {
                            assert(pre[m] == cs[m]);
                            old(self).lemma_entry(m);
                        }
                    }
                    assert(self@ =~= old(self)@.insert(name@, dirs@));
                }
                return;
            }
            i = i + 1;
        }
        self.categories.push(Category { name, dirs });
        proof {
            let cs = self.categories@;
            let last = pre.len() as int;
            assert(cs[last].name@ == name@);
            assert forall|k: Seq<char>| has_name(cs, k) <==> (has_name(pre, k) || k == name@) by {
                if has_name(pre, k) {
                    let m = choose|m: int| 0 <= m < pre.len() && #[trigger] pre[m].name@ == k;
                    assert(cs[m].name@ == k);
                }
                if has_name(cs, k) && k != name@ {
                    let m = choose|m: int| 0 <= m < cs.len() && #[trigger] cs[m].name@ == k;
                    assert(pre[m].name@ == k);
                }
            }
            assert forall|k: Seq<char>| #[trigger] self@.contains_key(k) implies self@[k]
                == old(self)@.insert(name@, dirs@)[k] by {
                let m = choose|m: int| 0 <= m < cs.len() && #[trigger] cs[m].name@ == k;
                self.lemma_entry(m);
                if m != last {
                    assert(pre[m] == cs[m]);
                    old(self).lemma_entry(m);
                }
            }
            assert(self@ =~= old(self)@.insert(name@, dirs@));
        }
    }

    /// The directories of the category called `name`.
    pub fn dirs_of(&self, name: &str) -> (r: Result<&Vec<String>, SearchError>)
        requires
            self.wf(),
        ensures
            self@.contains_key(name@) <==> r is Ok,
            r matches Ok(d) ==> d@ == self@[name@],
            r matches Err(SearchError::CategoryNotFound(n)) ==> n@ == name@,
    {
        let key = name.to_owned();
        let mut i: usize = 0;
        while i < self.categories.len()
            invariant
                self.wf(),
                key@ == name@,
                i <= self.categories@.len(),
                forall|m: int| 0 <= m < i ==> #[trigger] self.categories@[m].name@ != name@,
            decreases self.categories@.len() - i,
        {
            if self.categories[i].name == key {
                proof {
                    self.lemma_entry(i as int);
                }
                return Ok(&self.categories[i].dirs);
            }
            i = i + 1;
        }
        proof {
            let cs = self.categories@;
            if has_name(cs, name@) {
                let m = choose|m: int| 0 <= m < cs.len() && #[trigger] cs[m].name@ == name@;
                assert(cs[m].name@ != name@);
            }
        }
        Err(SearchError::CategoryNotFound(key))
    }

    /// The names of all categories.
    pub fn category_names(&self) -> (r: Vec<String>)
        requires
            self.wf(),
        ensures
            forall|k: Seq<char>|
                self@.contains_key(k) <==> exists|m: int| 0 <= m < r@.len() && #[trigger] r@[m]@ == k,
    {
        let mut r: Vec<String> = Vec::new();
        let mut i: usize = 0;
        while i < self.categories.len()
            invariant
                i <= self.categories@.len(),
                r@.len() == i,
                forall|m: int| 0 <= m < i ==> #[trigger] r@[m] == self.categories@[m].name,
            decreases self.categories@.len() - i,
        {
            r.push(self.categories[i].name.clone());
            i = i + 1;
        }
        proof {
            let cs = self.categories@;
            assert forall|k: Seq<char>|
                self@.contains_key(k) <==> exists|m: int| 0 <= m < r@.len() && #[trigger] r@[m]@ == k by {
                if self@.contains_key(k) {
                    let m = choose|m: int| 0 <= m < cs.len() && #[trigger] cs[m].name@ == k;
                    assert(r@[m]@ == k);
                }
                if exists|m: int| 0 <= m < r@.len() && #[trigger] r@[m]@ == k {
                    let m = choose|m: int| 0 <= m < r@.len() && #[trigger] r@[m]@ == k;
                    assert(cs[m].name@ == k);
                }
            }
        }
        r
    }
}

} // verus!
