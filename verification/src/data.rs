//! The data model: entries, categories, and the category tree.
//!
//! A `Tree` maps category names to ordered lists of entries. Categories are
//! kept in insertion order but carry no semantic order; the entries of one
//! category keep their insertion order. A delta — the set of entries added by
//! one submission — is shaped identically to a full tree.

use vstd::prelude::*;

verus! {

/// A single named, URL-bearing record. Immutable once created; identity is
/// by value, so duplicate `(name, url)` pairs are indistinguishable.
#[derive(Debug)]
pub struct Entry {
    pub name: String,
    pub url: String,
}

/// The mathematical value of an `Entry`: both fields as character sequences.
pub ghost struct EntryV {
    pub name: Seq<char>,
    pub url: Seq<char>,
}

impl View for Entry {
    type V = EntryV;

    open spec fn view(&self) -> EntryV {
        EntryV { name: self.name@, url: self.url@ }
    }
}

impl Entry {
    pub fn new(name: String, url: String) -> (e: Entry)
        ensures
            e@ == (EntryV { name: name@, url: url@ }),
    {
        Entry { name, url }
    }

    /// Value equality of two entries.
    pub fn same_as(&self, other: &Entry) -> (r: bool)
        ensures
            r == (self@ == other@),
    {
        let r = self.name == other.name && self.url == other.url;
        proof {
            if self.name@ == other.name@ && self.url@ == other.url@ {
                assert(self@ == other@);
            }
        }
        r
    }

    /// A deep copy with the same value.
    pub fn duplicate(&self) -> (e: Entry)
        ensures
            e@ == self@,
    {
        Entry { name: self.name.clone(), url: self.url.clone() }
    }
}

/// The mathematical value of one category: its name paired with the values
/// of its entries.
pub type CatV = (Seq<char>, Seq<EntryV>);

/// The mathematical value of a `Tree`: category names paired with the
/// values of their entries, in insertion order.
pub type TreeV = Seq<CatV>;

/// A mapping of categories to ordered entry lists. Insertion order is kept
/// per category; the order of the categories themselves carries no meaning.
#[derive(Debug)]
pub struct Tree {
    pub cats: Vec<(String, Vec<Entry>)>,
}

/// The mathematical value of a list of entries.
pub open spec fn entries_view(s: Seq<Entry>) -> Seq<EntryV> {
    s.map_values(|e: Entry| e@)
}

/// The mathematical value of one `(category, entries)` pair.
pub open spec fn pair_view(p: (String, Vec<Entry>)) -> CatV {
    (p.0@, entries_view(p.1@))
}

/// The mathematical value of a list of `(category, entries)` pairs.
pub open spec fn cats_view(s: Seq<(String, Vec<Entry>)>) -> TreeV {
    s.map_values(|p: (String, Vec<Entry>)| pair_view(p))
}

impl View for Tree {
    type V = TreeV;

    open spec fn view(&self) -> TreeV {
        cats_view(self.cats@)
    }
}

/// Category names are unique: no category appears twice.
pub open spec fn tree_wf(t: TreeV) -> bool {
    forall|i: int, j: int| 0 <= i < j < t.len() ==> (#[trigger] t[i]).0 != (#[trigger] t[j]).0
}

/// Whether the tree has a category named `c`.
pub open spec fn has_cat(t: TreeV, c: Seq<char>) -> bool {
    exists|i: int| 0 <= i < t.len() && (#[trigger] t[i]).0 == c
}

/// The index of category `c`; meaningful only when `has_cat(t, c)`, and
/// unique when `tree_wf(t)`.
pub open spec fn cat_at(t: TreeV, c: Seq<char>) -> int {
    choose|i: int| 0 <= i < t.len() && (#[trigger] t[i]).0 == c
}

/// The entries of category `c`, or the empty sequence if the category is
/// absent.
pub open spec fn entries_of(t: TreeV, c: Seq<char>) -> Seq<EntryV> {
    if has_cat(t, c) {
        t[cat_at(t, c)].1
    } else {
        Seq::empty()
    }
}

/// The tree after appending entry `e` to category `c`, creating the
/// category at the end if it is absent.
pub open spec fn add_spec(t: TreeV, c: Seq<char>, e: EntryV) -> TreeV {
    if has_cat(t, c) {
        t.update(cat_at(t, c), (c, t[cat_at(t, c)].1.push(e)))
    } else {
        t.push((c, seq![e]))
    }
}

/// How one append changes the tree, category by category: the named
/// category gains `e` at its end and every other category is untouched.
pub proof fn lemma_add_spec(t: TreeV, c: Seq<char>, e: EntryV)
    requires
        tree_wf(t),
    ensures
        tree_wf(add_spec(t, c, e)),
        forall|x: Seq<char>| #[trigger] has_cat(add_spec(t, c, e), x) <==> (has_cat(t, x) || x
            == c),
        forall|x: Seq<char>| #[trigger] entries_of(add_spec(t, c, e), x) == if x == c {
            entries_of(t, x).push(e)
        } else {
            entries_of(t, x)
        },
{
    let t2 = add_spec(t, c, e);
    if has_cat(t, c) {
        let i = cat_at(t, c);
        assert(0 <= i < t.len() && t[i].0 == c);
        assert forall|k: int| 0 <= k < t2.len() implies (#[trigger] t2[k]).0 == t[k].0 by {}
        assert(tree_wf(t2));
        assert forall|x: Seq<char>| #[trigger] has_cat(t2, x) <==> (has_cat(t, x) || x == c) by {
            if has_cat(t2, x) {
                let k = choose|k: int| 0 <= k < t2.len() && (#[trigger] t2[k]).0 == x;
                assert(t[k].0 == x);
                assert(has_cat(t, x));
            }
            if has_cat(t, x) {
                let k = choose|k: int| 0 <= k < t.len() && (#[trigger] t[k]).0 == x;
                assert(t2[k].0 == x);
                assert(has_cat(t2, x));
            }
            if x == c {
                assert(t2[i].0 == x);
                assert(has_cat(t2, x));
            }
        }
        assert forall|x: Seq<char>| #[trigger] entries_of(t2, x) == if x == c {
            entries_of(t, x).push(e)
        } else {
            entries_of(t, x)
        } by {
            if has_cat(t2, x) {
                let k2 = cat_at(t2, x);
                assert(0 <= k2 < t2.len() && t2[k2].0 == x);
                let k1 = cat_at(t, x);
                assert(0 <= k1 < t.len() && t[k1].0 == x);
                assert(t2[k1].0 == x);
                if k1 != k2 {
                    assert(t2[k1].0 == t2[k2].0);
                    assert(false);
                }
                if x == c {
                    if k1 != i {
                        assert(t[k1].0 == t[i].0);
                        assert(false);
                    }
                    assert(entries_of(t2, x) == entries_of(t, x).push(e));
                } else {
                    assert(k1 != i);
                    assert(entries_of(t2, x) == entries_of(t, x));
                }
            }
        }
    } else {
        let n = t.len() as int;
        assert(t2 == t.push((c, seq![e])));
        assert forall|k: int| 0 <= k < n implies (#[trigger] t2[k]).0 == t[k].0 by {}
        assert(t2[n].0 == c);
        assert forall|i: int, j: int| 0 <= i < j < t2.len() implies (#[trigger] t2[i]).0 != (
        #[trigger] t2[j]).0 by {
            if j < n {
                assert(t2[i].0 == t[i].0 && t2[j].0 == t[j].0);
            } else {
                assert(j == n);
                assert(t2[i].0 == t[i].0);
                if t[i].0 == c {
                    assert(has_cat(t, c));
                    assert(false);
                }
            }
        }
        assert forall|x: Seq<char>| #[trigger] has_cat(t2, x) <==> (has_cat(t, x) || x == c) by {
            if has_cat(t2, x) && x != c {
                let k = choose|k: int| 0 <= k < t2.len() && (#[trigger] t2[k]).0 == x;
                assert(k < n);
                assert(t[k].0 == x);
            }
            if has_cat(t, x) {
                let k = choose|k: int| 0 <= k < t.len() && (#[trigger] t[k]).0 == x;
                assert(t2[k].0 == x);
            }
            if x == c {
                assert(t2[n].0 == x);
            }
        }
        assert forall|x: Seq<char>| #[trigger] entries_of(t2, x) == if x == c {
            entries_of(t, x).push(e)
        } else {
            entries_of(t, x)
        } by {
            if x == c {
                let k2 = cat_at(t2, c);
                assert(0 <= k2 < t2.len() && t2[k2].0 == c);
                if k2 != n {
                    assert(t[k2].0 == c);
                    assert(has_cat(t, c));
                    assert(false);
                }
                assert(entries_of(t2, c) == seq![e]);
                assert(entries_of(t, c).push(e) =~= seq![e]);
            } else {
                if has_cat(t2, x) {
                    let k2 = cat_at(t2, x);
                    assert(0 <= k2 < t2.len() && t2[k2].0 == x);
                    assert(k2 != n);
                    let k1 = cat_at(t, x);
                    assert(t2[k1].0 == x);
                    if k1 != k2 {
                        assert(t2[k1].0 == t2[k2].0);
                        assert(false);
                    }
                    assert(entries_of(t2, x) == entries_of(t, x));
                } else {
                    assert(!has_cat(t, x));
                }
            }
        }
    }
}

impl Tree {
    /// An empty tree: no categories at all.
    pub fn new() -> (t: Tree)
        ensures
            t@ == Seq::<(Seq<char>, Seq<EntryV>)>::empty(),
            tree_wf(t@),
    {
        let t = Tree { cats: Vec::new() };
        proof {
            assert(t@ =~= Seq::<(Seq<char>, Seq<EntryV>)>::empty());
        }
        t
    }

    /// The position of category `category`, if present.
    pub fn find_cat(&self, category: &String) -> (r: Option<usize>)
        ensures
            match r {
                Some(i) => i < self@.len() && self@[i as int].0 == category@,
                None => !has_cat(self@, category@),
            },
    {
        let mut i: usize = 0;
        while i < self.cats.len()
            invariant
                i <= self.cats.len(),
                self@.len() == self.cats.len(),
                forall|k: int| 0 <= k < i ==> (#[trigger] self@[k]).0 != category@,
            decreases self.cats.len() - i,
        {
            if self.cats[i].0 == *category {
                return Some(i);
            }
            i = i + 1;
        }
        None
    }

    /// Appends `entry` to category `category`, creating the category at the
    /// end of the tree if it is absent.
    pub fn add(&mut self, category: String, entry: Entry)
        requires
            tree_wf(old(self)@),
        ensures
            final(self)@ == add_spec(old(self)@, category@, entry@),
            tree_wf(final(self)@),
    {
        proof {
            lemma_add_spec(old(self)@, category@, entry@);
        }
        let found = self.find_cat(&category);
        match found {
            Some(i) => {
                let ghost old_view = self@;
                let ghost c = category@;
                let p = &mut self.cats[i];
                p.1.push(entry);
                proof {
                    assert(has_cat(old_view, c)) by {
                        assert(old_view[i as int].0 == c);
                    }
                    let k = cat_at(old_view, c);
                    assert(0 <= k < old_view.len() && old_view[k].0 == c);
                    if k != i as int {
                        assert(old_view[k].0 == old_view[i as int].0);
                        assert(false);
                    }
                    assert(self@ =~~= add_spec(old_view, c, entry@));
                }
            },
            None => {
                let mut single: Vec<Entry> = Vec::new();
                single.push(entry);
                let ghost old_view = self@;
                self.cats.push((category, single));
                proof {
                    assert(single@.map_values(|e: Entry| e@) =~= seq![entry@]);
                    assert(self@ =~~= add_spec(old_view, category@, entry@));
                }
            },
        }
    }

    /// Whether category `category` already holds an entry with this value.
    pub fn contains_entry(&self, category: &String, entry: &Entry) -> (r: bool)
        requires
            tree_wf(self@),
        ensures
            r == entries_of(self@, category@).contains(entry@),
    {
        let found = self.find_cat(category);
        match found {
            None => {
                proof {
                    assert(!entries_of(self@, category@).contains(entry@));
                }
                false
            },
            Some(i) => {
                proof {
                    assert(has_cat(self@, category@)) by {
                        assert(self@[i as int].0 == category@);
                    }
                    let k = cat_at(self@, category@);
                    assert(0 <= k < self@.len() && self@[k].0 == category@);
                    if k != i as int {
                        assert(self@[k].0 == self@[i as int].0);
                        assert(false);
                    }
                }
                let ghost es = entries_of(self@, category@);
                let list = &self.cats[i].1;
                proof {
                    assert(es =~= list@.map_values(|e: Entry| e@));
                }
                let mut j: usize = 0;
                while j < list.len()
                    invariant
                        j <= list.len(),
                        es == entries_of(self@, category@),
                        es.len() == list.len(),
                        forall|k: int| 0 <= k < list@.len() ==> es[k] == (#[trigger] list@[k])@,
                        forall|k: int| 0 <= k < j ==> (#[trigger] es[k]) != entry@,
                    decreases list.len() - j,
                {
                    if list[j].same_as(entry) {
                        proof {
                            assert(es[j as int] == entry@);
                            assert(es.contains(entry@));
                        }
                        return true;
                    }
                    j = j + 1;
                }
                proof {
                    assert(!es.contains(entry@));
                }
                false
            },
        }
    }

    /// Whether the tree satisfies its invariant — no category name twice.
    /// Lets an embedding process validate a tree rebuilt from storage or
    /// from the network before handing it to operations that require it.
    pub fn is_wf(&self) -> (r: bool)
        ensures
            r == tree_wf(self@),
    {
        let mut i: usize = 0;
        while i < self.cats.len()
            invariant
                i <= self.cats.len(),
                self@.len() == self.cats.len(),
                forall|a: int, b: int|
                    0 <= a < b < self@.len() && a < i ==> (#[trigger] self@[a]).0 != (
                    #[trigger] self@[b]).0,
            decreases self.cats.len() - i,
        {
            let mut j: usize = i + 1;
            while j < self.cats.len()
                invariant
                    i < j <= self.cats.len(),
                    self@.len() == self.cats.len(),
                    forall|b: int| i < b < j ==> (#[trigger] self@[b]).0 != self@[i as int].0,
                decreases self.cats.len() - j,
            {
                if self.cats[i].0 == self.cats[j].0 {
                    proof {
                        assert(self@[i as int].0 == self@[j as int].0);
                    }
                    return false;
                }
                j = j + 1;
            }
            i = i + 1;
        }
        true
    }

    /// A deep copy with the same value.
    pub fn duplicate(&self) -> (t: Tree)
        ensures
            t@ == self@,
    {
        let mut cats: Vec<(String, Vec<Entry>)> = Vec::new();
        let mut i: usize = 0;
        while i < self.cats.len()
            invariant
                i <= self.cats.len(),
                self@.len() == self.cats.len(),
                cats@.len() == i,
                forall|k: int| 0 <= k < i ==> pair_view(#[trigger] cats@[k]) == self@[k],
            decreases self.cats.len() - i,
        {
            let p = &self.cats[i];
            let mut es: Vec<Entry> = Vec::new();
            let mut j: usize = 0;
            while j < p.1.len()
                invariant
                    j <= p.1.len(),
                    es@.len() == j,
                    forall|k: int| 0 <= k < j ==> (#[trigger] es@[k])@ == p.1@[k]@,
                decreases p.1.len() - j,
            {
                es.push(p.1[j].duplicate());
                j = j + 1;
            }
            proof {
                assert(es@.map_values(|e: Entry| e@) =~= p.1@.map_values(|e: Entry| e@));
            }
            cats.push((p.0.clone(), es));
            i = i + 1;
        }
        let t = Tree { cats };
        proof {
            assert(t@ =~~= self@);
        }
        t
    }
}

} // verus!
