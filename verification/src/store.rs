//! The store: a mapping from normalized directory path to a flat
//! key/value scope, both held as association vectors with unique keys.

use vstd::prelude::*;
use crate::path::DirPath;
use crate::strutil::str_eq;

verus! {

/// The map denoted by an association list: entries folded left to right,
/// a later entry overriding an earlier one with the same key.
pub open spec fn map_of<K: View, V: View>(s: Seq<(K, V)>) -> Map<K::V, V::V>
    decreases s.len(),
{
    if s.len() == 0 {
        Map::empty()
    } else {
        map_of(s.drop_last()).insert(s.last().0@, s.last().1@)
    }
}

/// No two entries share a key.
pub open spec fn uniq_keys<K: View, V: View>(s: Seq<(K, V)>) -> bool {
    forall|i: int, j: int| 0 <= i < j < s.len() ==> s[i].0@ != s[j].0@
}

/// A key is in the denoted map exactly when some entry holds it.
pub proof fn lemma_map_of_contains<K: View, V: View>(s: Seq<(K, V)>, k: K::V)
    ensures
        map_of(s).contains_key(k) <==> exists|i: int| 0 <= i < s.len() && (#[trigger] s[i]).0@ == k,
    decreases s.len(),
{
    if s.len() > 0 {
        let dl = s.drop_last();
        lemma_map_of_contains(dl, k);
        if map_of(s).contains_key(k) {
            if s.last().0@ == k {
                assert(s[s.len() - 1].0@ == k);
            } else {
                let i = choose|i: int| 0 <= i < dl.len() && (#[trigger] dl[i]).0@ == k;
                assert(s[i].0@ == k);
            }
        }
        if exists|i: int| 0 <= i < s.len() && (#[trigger] s[i]).0@ == k {
            let i = choose|i: int| 0 <= i < s.len() && (#[trigger] s[i]).0@ == k;
            if i < s.len() - 1 {
                assert(dl[i].0@ == k);
            }
        }
    }
}

/// An entry with no later entry of the same key gives the map's value.
pub proof fn lemma_map_of_value<K: View, V: View>(s: Seq<(K, V)>, i: int)
    requires
        0 <= i < s.len(),
        forall|j: int| i < j < s.len() ==> (#[trigger] s[j]).0@ != s[i].0@,
    ensures
        map_of(s).contains_key(s[i].0@),
        map_of(s)[s[i].0@] == s[i].1@,
    decreases s.len(),
{
    if i < s.len() - 1 {
        let dl = s.drop_last();
        assert(forall|j: int| i < j < dl.len() ==> (#[trigger] dl[j]).0@ != dl[i].0@) by {
            assert(forall|j: int| 0 <= j < dl.len() ==> #[trigger] dl[j] == s[j]);
        }
        lemma_map_of_value(dl, i);
        assert(s.last().0@ != s[i].0@);
    }
}

/// `s2` holds exactly the entries of `s` whose key is not `k`.
pub open spec fn same_entries_minus<K: View, V: View>(
    s: Seq<(K, V)>,
    s2: Seq<(K, V)>,
    k: K::V,
) -> bool {
    &&& forall|i: int| 0 <= i < s2.len() ==> (#[trigger] s2[i]).0@ != k
    &&& forall|i: int|
        0 <= i < s2.len() ==> exists|i2: int| 0 <= i2 < s.len() && #[trigger] s[i2] == #[trigger] s2[i]
    &&& forall|i: int|
        0 <= i < s.len() && (#[trigger] s[i]).0@ != k ==> exists|i2: int|
            0 <= i2 < s2.len() && #[trigger] s2[i2] == s[i]
}

/// Erasing a key: an association list over the same entries but those
/// keyed `k` denotes the map with `k` removed.
pub proof fn lemma_map_of_erase<K: View, V: View>(s: Seq<(K, V)>, s2: Seq<(K, V)>, k: K::V)
    requires
        uniq_keys(s),
        uniq_keys(s2),
        same_entries_minus(s, s2, k),
    ensures
        map_of(s2) == map_of(s).remove(k),
{
    assert forall|k2: K::V| map_of(s2).contains_key(k2) implies map_of(s).remove(k).contains_key(
        k2,
    ) by {
        lemma_map_of_contains(s2, k2);
        let i = choose|i: int| 0 <= i < s2.len() && (#[trigger] s2[i]).0@ == k2;
        let i2 = choose|i2: int| 0 <= i2 < s.len() && #[trigger] s[i2] == s2[i];
        lemma_map_of_contains(s, k2);
        assert(k2 != k);
    }
    assert forall|k2: K::V| map_of(s).remove(k).contains_key(k2) implies map_of(s2).contains_key(
        k2,
    ) by {
        lemma_map_of_contains(s, k2);
        let i = choose|i: int| 0 <= i < s.len() && (#[trigger] s[i]).0@ == k2;
        let i2 = choose|i2: int| 0 <= i2 < s2.len() && #[trigger] s2[i2] == s[i];
        lemma_map_of_contains(s2, k2);
    }
    assert forall|k2: K::V| map_of(s2).contains_key(k2) implies map_of(s2)[k2] == map_of(s)[k2] by {
        lemma_map_of_contains(s2, k2);
        let i = choose|i: int| 0 <= i < s2.len() && (#[trigger] s2[i]).0@ == k2;
        lemma_map_of_value(s2, i);
        let i2 = choose|i2: int| 0 <= i2 < s.len() && #[trigger] s[i2] == s2[i];
        lemma_map_of_value(s, i2);
    }
    assert(map_of(s2) =~= map_of(s).remove(k));
}

/// Swapping the last entry into place `j` and dropping the end removes
/// exactly the entry at `j`, keeping the others and their uniqueness.
pub proof fn lemma_swap_remove_entries<K: View, V: View>(s: Seq<(K, V)>, j: int)
    requires
        uniq_keys(s),
        0 <= j < s.len(),
    ensures
        uniq_keys(s.update(j, s.last()).drop_last()),
        same_entries_minus(s, s.update(j, s.last()).drop_last(), s[j].0@),
{
    let k = s[j].0@;
    let s2 = s.update(j, s.last()).drop_last();
    assert(forall|i: int|
        0 <= i < s2.len() ==> #[trigger] s2[i] == (if i == j {
            s[s.len() - 1]
        } else {
            s[i]
        }));
    assert forall|a: int, b: int| 0 <= a < b < s2.len() implies (#[trigger] s2[a]).0@
        != (#[trigger] s2[b]).0@ by {
        let fa: int = if a == j { s.len() - 1 } else { a };
        let fb: int = if b == j { s.len() - 1 } else { b };
        assert(s2[a] == s[fa]);
        assert(s2[b] == s[fb]);
        assert(fa != fb);
        if fa < fb {
            assert(s[fa].0@ != s[fb].0@);
        } else {
            assert(s[fb].0@ != s[fa].0@);
        }
    }
    assert forall|i: int| 0 <= i < s2.len() implies (#[trigger] s2[i]).0@ != k by {
        if i == j {
            assert(s2[i] == s[s.len() - 1]);
            assert(j < s.len() - 1);
        }
    }
    assert forall|i: int| #![trigger s2[i]] 0 <= i < s2.len() implies exists|i2: int|
        0 <= i2 < s.len() && #[trigger] s[i2] == s2[i] by {
        if i == j {
            assert(s[s.len() - 1] == s2[i]);
        } else {
            assert(s[i] == s2[i]);
        }
    }
    assert forall|i: int| #![trigger s[i]] 0 <= i < s.len() && s[i].0@ != k implies exists|i2: int|
        0 <= i2 < s2.len() && #[trigger] s2[i2] == s[i] by {
        assert(i != j);
        if i == s.len() - 1 {
            assert(s2[j] == s[i]);
        } else {
            assert(s2[i] == s[i]);
        }
    }
}

/// A flat key/value scope attached to one directory.
pub struct Scope {
    entries: Vec<(String, String)>,
}

impl View for Scope {
    type V = Map<Seq<char>, Seq<char>>;

    open spec fn view(&self) -> Map<Seq<char>, Seq<char>> {
        map_of(self.entry_seq())
    }
}

impl Scope {
    /// The entries in their held order.
    pub closed spec fn entry_seq(&self) -> Seq<(String, String)> {
        self.entries@
    }

    /// Unique keys.
    pub open spec fn wf(&self) -> bool {
        uniq_keys(self.entry_seq())
    }

    /// The empty scope.
    pub fn new() -> (r: Scope)
        ensures
            r@ == Map::<Seq<char>, Seq<char>>::empty(),
            r.wf(),
            r.entry_seq().len() == 0,
    {
        Scope { entries: Vec::new() }
    }

    /// How many entries the scope holds.
    pub fn entry_count(&self) -> (n: usize)
        ensures
            n == self.entry_seq().len(),
    {
        self.entries.len()
    }

    /// The key and value of the entry at `i`.
    pub fn entry_at(&self, i: usize) -> (r: (&String, &String))
        requires
            i < self.entry_seq().len(),
        ensures
            r.0@ == self.entry_seq()[i as int].0@,
            r.1@ == self.entry_seq()[i as int].1@,
    {
        (&self.entries[i].0, &self.entries[i].1)
    }

    fn find_key(&self, key: &str) -> (r: Option<usize>)
        ensures
            match r {
                Some(j) => j < self.entry_seq().len() && self.entry_seq()[j as int].0@ == key@,
                None => forall|i: int|
                    0 <= i < self.entry_seq().len() ==> (#[trigger] self.entry_seq()[i]).0@ != key@,
            },
    {
        let mut j: usize = 0;
        while j < self.entries.len()
            invariant
                j <= self.entry_seq().len(),
                forall|i: int| 0 <= i < j ==> (#[trigger] self.entry_seq()[i]).0@ != key@,
            decreases self.entry_seq().len() - j,
        {
            if str_eq(self.entries[j].0.as_str(), key) {
                return Some(j);
            }
            j += 1;
        }
        None
    }

    /// The value held for `key`, if any.
    pub fn get(&self, key: &str) -> (r: Option<&String>)
        requires
            self.wf(),
        ensures
            match r {
                Some(v) => self@.contains_key(key@) && self@[key@] == v@,
                None => !self@.contains_key(key@),
            },
    {
        match self.find_key(key) {
            Some(j) => {
                proof {
                    lemma_map_of_value(self.entry_seq(), j as int);
                }
                Some(&self.entries[j].1)
            },
            None => {
                proof {
                    lemma_map_of_contains(self.entry_seq(), key@);
                }
                None
            },
        }
    }

    /// Inserts or overwrites `key`.
    pub fn insert(&mut self, key: String, value: String)
        requires
            old(self).wf(),
        ensures
            final(self).wf(),
            final(self)@ == old(self)@.insert(key@, value@),
    {
        let ghost s0 = self.entry_seq();
        match self.find_key(key.as_str()) {
            Some(j) => {
                proof {
                    lemma_swap_remove_entries(s0, j as int);
                }
                self.entries.swap_remove(j);
                proof {
                    lemma_map_of_erase(s0, self.entry_seq(), key@);
                }
            },
            None => {
                proof {
                    lemma_map_of_contains(s0, key@);
                    assert(map_of(s0).remove(key@) =~= map_of(s0));
                }
            },
        }
        let ghost s1 = self.entry_seq();
        proof {
            assert(forall|i: int| 0 <= i < s1.len() ==> (#[trigger] s1[i]).0@ != key@);
        }
        self.entries.push((key, value));
        proof {
            assert(self.entry_seq().drop_last() =~= s1);
            assert(forall|a: int, b: int|
                0 <= a < b < self.entry_seq().len() ==> (#[trigger] self.entry_seq()[a]).0@
                    != (#[trigger] self.entry_seq()[b]).0@);
            assert(self@ =~= old(self)@.insert(key@, value@));
        }
    }

    /// Removes `key`; a silent no-op when it is absent.
    pub fn remove(&mut self, key: &str)
        requires
            old(self).wf(),
        ensures
            final(self).wf(),
            final(self)@ == old(self)@.remove(key@),
    {
        let ghost s0 = self.entry_seq();
        match self.find_key(key) {
            Some(j) => {
                proof {
                    lemma_swap_remove_entries(s0, j as int);
                }
                self.entries.swap_remove(j);
                proof {
                    lemma_map_of_erase(s0, self.entry_seq(), key@);
                }
            },
            None => {
                proof {
                    lemma_map_of_contains(s0, key@);
                    assert(map_of(s0).remove(key@) =~= map_of(s0));
                }
            },
        }
    }

    /// Overlays every entry of `other` onto this scope, `other` winning
    /// on shared keys.
    pub fn extend(&mut self, other: &Scope)
        requires
            old(self).wf(),
    ensures
            final(self).wf(),
            final(self)@ == old(self)@.union_prefer_right(other@),
    {
        let n = other.entry_count();
        let mut j: usize = 0;
        proof {
            assert(other.entry_seq().take(0) =~= Seq::<(String, String)>::empty());
            assert(old(self)@.union_prefer_right(map_of(other.entry_seq().take(0))) =~= old(
                self,
            )@);
        }
        while j < n
            invariant
                j <= n,
                n == other.entry_seq().len(),
                self.wf(),
                self@ == old(self)@.union_prefer_right(map_of(other.entry_seq().take(j as int))),
            decreases n - j,
        {
            let (k, v) = other.entry_at(j);
            let k2 = k.clone();
            let v2 = v.clone();
            self.insert(k2, v2);
            proof {
                let t = other.entry_seq().take(j as int + 1);
                assert(t.drop_last() =~= other.entry_seq().take(j as int));
                assert(t.last() == other.entry_seq()[j as int]);
                assert(self@ =~= old(self)@.union_prefer_right(map_of(t)));
            }
            j += 1;
        }
        proof {
            assert(other.entry_seq().take(n as int) =~= other.entry_seq());
        }
    }
}

/// The full store: one scope per normalized directory path.
pub struct Store {
    scopes: Vec<(DirPath, Scope)>,
}

impl View for Store {
    type V = Map<Seq<Seq<char>>, Map<Seq<char>, Seq<char>>>;

    open spec fn view(&self) -> Map<Seq<Seq<char>>, Map<Seq<char>, Seq<char>>> {
        map_of(self.scope_seq())
    }
}

/// The scope a store holds for a directory, the empty scope when it
/// holds none: readers must treat the two alike.
pub open spec fn scope_at(
    m: Map<Seq<Seq<char>>, Map<Seq<char>, Seq<char>>>,
    p: Seq<Seq<char>>,
) -> Map<Seq<char>, Seq<char>> {
    if m.contains_key(p) {
        m[p]
    } else {
        Map::empty()
    }
}

impl Store {
    /// The (path, scope) entries in their held order.
    pub closed spec fn scope_seq(&self) -> Seq<(DirPath, Scope)> {
        self.scopes@
    }

    /// Paths are unique, normalized and well formed; every scope has
    /// unique keys.
    pub open spec fn wf(&self) -> bool {
        &&& uniq_keys(self.scope_seq())
        &&& forall|i: int|
            0 <= i < self.scope_seq().len() ==> (#[trigger] self.scope_seq()[i]).0.wf()
                && self.scope_seq()[i].1.wf()
    }

    /// The empty store.
    pub fn new() -> (r: Store)
        ensures
            r@ == Map::<Seq<Seq<char>>, Map<Seq<char>, Seq<char>>>::empty(),
            r.wf(),
            r.scope_seq().len() == 0,
    {
        Store { scopes: Vec::new() }
    }

    pub(crate) fn scope_count(&self) -> (n: usize)
        ensures
            n == self.scope_seq().len(),
    {
        self.scopes.len()
    }

    pub(crate) fn scope_entry_at(&self, i: usize) -> (r: (&DirPath, &Scope))
        requires
            i < self.scope_seq().len(),
        ensures
            r.0@ == self.scope_seq()[i as int].0@,
            r.1@ == self.scope_seq()[i as int].1@,
            r.1.entry_seq() == self.scope_seq()[i as int].1.entry_seq(),
    {
        (&self.scopes[i].0, &self.scopes[i].1)
    }

    fn find_path(&self, p: &DirPath, depth: usize) -> (r: Option<usize>)
        requires
            depth <= p@.len(),
        ensures
            match r {
                Some(j) => j < self.scope_seq().len() && self.scope_seq()[j as int].0@ == p@.take(
                    depth as int,
                ),
                None => forall|i: int|
                    0 <= i < self.scope_seq().len() ==> (#[trigger] self.scope_seq()[i]).0@
                        != p@.take(depth as int),
            },
    {
        let mut j: usize = 0;
        while j < self.scopes.len()
            invariant
                j <= self.scope_seq().len(),
                depth <= p@.len(),
                forall|i: int|
                    0 <= i < j ==> (#[trigger] self.scope_seq()[i]).0@ != p@.take(depth as int),
            decreases self.scope_seq().len() - j,
        {
            if self.scopes[j].0.matches_prefix(p, depth) {
                return Some(j);
            }
            j += 1;
        }
        None
    }

    /// The scope held for the directory named by the first `depth`
    /// segments of `p`, if any.
    pub fn scope_for_prefix(&self, p: &DirPath, depth: usize) -> (r: Option<&Scope>)
        requires
            depth <= p@.len(),
            self.wf(),
        ensures
            match r {
                Some(sc) => self@.contains_key(p@.take(depth as int)) && self@[p@.take(
                    depth as int,
                )] == sc@ && sc.wf(),
                None => !self@.contains_key(p@.take(depth as int)),
            },
    {
        match self.find_path(p, depth) {
            Some(j) => {
                proof {
                    lemma_map_of_value(self.scope_seq(), j as int);
                }
                Some(&self.scopes[j].1)
            },
            None => {
                proof {
                    lemma_map_of_contains(self.scope_seq(), p@.take(depth as int));
                }
                None
            },
        }
    }

    /// Puts `scope` at `dir`, replacing whatever was there.
    #[verifier::rlimit(50)]
    pub fn put_scope(&mut self, dir: DirPath, scope: Scope)
        requires
            old(self).wf(),
            dir.wf(),
            scope.wf(),
        ensures
            final(self).wf(),
            final(self)@ == old(self)@.insert(dir@, scope@),
    {
        let ghost s0 = self.scope_seq();
        let depth = dir.depth();
        proof {
            assert(dir@.take(dir@.len() as int) =~= dir@);
        }
        match self.find_path(&dir, depth) {
            Some(j) => {
                proof {
                    lemma_swap_remove_entries(s0, j as int);
                }
                self.scopes.swap_remove(j);
                proof {
                    lemma_map_of_erase(s0, self.scope_seq(), dir@);
                    assert forall|i: int| #![trigger self.scope_seq()[i]]
                        0 <= i < self.scope_seq().len() implies self.scope_seq()[i].0.wf()
                        && self.scope_seq()[i].1.wf() by {
                        assert(self.scope_seq()[i] == (if i == j as int {
                            s0[s0.len() - 1]
                        } else {
                            s0[i]
                        }));
                    }
                }
            },
            None => {
                proof {
                    lemma_map_of_contains(s0, dir@);
                    assert(map_of(s0).remove(dir@) =~= map_of(s0));
                }
            },
        }
        let ghost s1 = self.scope_seq();
        proof {
            assert(map_of(s1) == map_of(s0).remove(dir@));
            assert(uniq_keys(s1));
            assert(forall|i: int| 0 <= i < s1.len() ==> (#[trigger] s1[i]).0@ != dir@);
            assert(forall|i: int| 0 <= i < s1.len() ==> (#[trigger] s1[i]).0.wf() && s1[i].1.wf());
        }
        self.scopes.push((dir, scope));
        proof {
            let s2 = self.scope_seq();
            assert(s2.drop_last() =~= s1);
            assert(s2.last() == (dir, scope));
            assert forall|a: int, b: int| 0 <= a < b < s2.len() implies (#[trigger] s2[a]).0@
                != (#[trigger] s2[b]).0@ by {
                if b < s2.len() - 1 {
                    assert(s2[a] == s1[a] && s2[b] == s1[b]);
                } else {
                    assert(s2[a] == s1[a] && s2[b] == (dir, scope));
                }
            }
            assert forall|i: int| #![trigger s2[i]] 0 <= i < s2.len() implies s2[i].0.wf()
                && s2[i].1.wf() by {
                if i < s2.len() - 1 {
                    assert(s2[i] == s1[i]);
                } else {
                    assert(s2[i] == (dir, scope));
                }
            }
            assert(self@ =~= old(self)@.insert(dir@, scope@));
        }
    }

    /// Inserts or overwrites `key` in the scope of exactly `dir`,
    /// creating the scope when absent. No other directory is touched.
    pub fn set(&mut self, dir: &DirPath, key: String, value: String)
        requires
            old(self).wf(),
            dir.wf(),
        ensures
            final(self).wf(),
            final(self)@ == old(self)@.insert(
                dir@,
                scope_at(old(self)@, dir@).insert(key@, value@),
            ),
    {
        let depth = dir.depth();
        proof {
            assert(dir@.take(dir@.len() as int) =~= dir@);
        }
        let mut scope: Scope = match self.scope_for_prefix(dir, depth) {
            Some(sc) => sc.clone(),
            None => Scope::new(),
        };
        scope.insert(key, value);
        self.put_scope(dir.clone(), scope);
    }

    /// Removes `key` from the scope of exactly `dir`; a silent no-op
    /// when the scope or the key is absent.
    pub fn unset(&mut self, dir: &DirPath, key: &str)
        requires
            old(self).wf(),
            dir.wf(),
        ensures
            final(self).wf(),
            final(self)@ == (if old(self)@.contains_key(dir@) {
                old(self)@.insert(dir@, old(self)@[dir@].remove(key@))
            } else {
                old(self)@
            }),
    {
        let depth = dir.depth();
        proof {
            assert(dir@.take(dir@.len() as int) =~= dir@);
        }
        let mut scope: Scope = match self.scope_for_prefix(dir, depth) {
            Some(sc) => sc.clone(),
            None => {
                return;
            },
        };
        scope.remove(key);
        self.put_scope(dir.clone(), scope);
    }
}

impl Clone for Scope {
    /// The clone holds the same entries.
    fn clone(&self) -> (r: Self)
        ensures
            r.entry_seq() == self.entry_seq(),
            r@ == self@,
            r.wf() == self.wf(),
    {
        let mut entries: Vec<(String, String)> = Vec::new();
        let mut j: usize = 0;
        while j < self.entries.len()
            invariant
                j <= self.entries@.len(),
                entries@ =~= self.entries@.take(j as int),
            decreases self.entries@.len() - j,
        {
            let k = self.entries[j].0.clone();
            let v = self.entries[j].1.clone();
            proof {
                assert(self.entries@[j as int] == (self.entries@[j as int].0, self.entries@[j as int].1));
            }
            entries.push((k, v));
            proof {
                assert(entries@ =~= self.entries@.take(j as int + 1));
            }
            j += 1;
        }
        proof {
            assert(self.entries@.take(self.entries@.len() as int) =~= self.entries@);
        }
        Scope { entries }
    }
}

} // verus!
