//! The projector: hierarchical resolution of values for a working
//! directory, and the mutations scoped to exactly that directory.
//!
//! Resolution walks the ancestor chain of the working directory. The
//! effective value of a key is the one defined by the nearest ancestor
//! (the directory itself included) whose scope holds the key.

use vstd::prelude::*;
use vstd::string::StringExecFns;
use crate::path::{DirPath, normalize};
use crate::store::{Scope, Store, scope_at};
use crate::json::{json_store, loaded_store, store_from_json, store_to_json};

verus! {

/// The value `k` resolves to from directory `p`: the nearest ancestor
/// (including `p` itself) whose scope defines `k` wins.
pub open spec fn resolve_one(
    m: Map<Seq<Seq<char>>, Map<Seq<char>, Seq<char>>>,
    p: Seq<Seq<char>>,
    k: Seq<char>,
) -> Option<Seq<char>>
    decreases p.len(),
{
    if m.contains_key(p) && m[p].contains_key(k) {
        Some(m[p][k])
    } else if p.len() == 0 {
        None
    } else {
        resolve_one(m, p.drop_last(), k)
    }
}

/// The effective mapping visible from `p`: the scopes on the ancestor
/// chain from the root down to `p`, overlaid in that order so that a
/// nearer directory overrides a farther one.
pub open spec fn resolve_all(
    m: Map<Seq<Seq<char>>, Map<Seq<char>, Seq<char>>>,
    p: Seq<Seq<char>>,
) -> Map<Seq<char>, Seq<char>>
    decreases p.len(),
{
    if p.len() == 0 {
        scope_at(m, p)
    } else {
        resolve_all(m, p.drop_last()).union_prefer_right(scope_at(m, p))
    }
}

/// The store after a set: the scope of exactly `p` (created empty when
/// absent) gains `k -> v`.
pub open spec fn set_spec(
    m: Map<Seq<Seq<char>>, Map<Seq<char>, Seq<char>>>,
    p: Seq<Seq<char>>,
    k: Seq<char>,
    v: Seq<char>,
) -> Map<Seq<Seq<char>>, Map<Seq<char>, Seq<char>>> {
    m.insert(p, scope_at(m, p).insert(k, v))
}

/// The store after a removal: `k` leaves the scope of exactly `p`; a
/// store without a scope at `p` is left as it is.
pub open spec fn remove_spec(
    m: Map<Seq<Seq<char>>, Map<Seq<char>, Seq<char>>>,
    p: Seq<Seq<char>>,
    k: Seq<char>,
) -> Map<Seq<Seq<char>>, Map<Seq<char>, Seq<char>>> {
    if m.contains_key(p) {
        m.insert(p, m[p].remove(k))
    } else {
        m
    }
}

/// Consistency of the two resolution forms: resolving one key agrees
/// with looking that key up in the full effective mapping.
pub proof fn lemma_resolve_consistent(
    m: Map<Seq<Seq<char>>, Map<Seq<char>, Seq<char>>>,
    p: Seq<Seq<char>>,
    k: Seq<char>,
)
    ensures
        resolve_one(m, p, k) == (if resolve_all(m, p).contains_key(k) {
            Some(resolve_all(m, p)[k])
        } else {
            None::<Seq<char>>
        }),
    decreases p.len(),
{
    if p.len() > 0 {
        lemma_resolve_consistent(m, p.drop_last(), k);
    }
}

/// Removal is idempotent: removing the same key from the same directory
/// twice leaves the same store as removing it once.
pub proof fn lemma_remove_idempotent(
    m: Map<Seq<Seq<char>>, Map<Seq<char>, Seq<char>>>,
    p: Seq<Seq<char>>,
    k: Seq<char>,
)
    ensures
        remove_spec(remove_spec(m, p, k), p, k) == remove_spec(m, p, k),
{
    if m.contains_key(p) {
        let m1 = remove_spec(m, p, k);
        assert(m1[p].remove(k) =~= m1[p]);
        assert(remove_spec(m1, p, k) =~= m1);
    }
}

/// Write then read: after a set, the key resolves at that directory to
/// the value written.
pub proof fn lemma_write_then_read(
    m: Map<Seq<Seq<char>>, Map<Seq<char>, Seq<char>>>,
    p: Seq<Seq<char>>,
    k: Seq<char>,
    v: Seq<char>,
)
    ensures
        resolve_one(set_spec(m, p, k, v), p, k) == Some(v),
{
    let m2 = set_spec(m, p, k, v);
    assert(m2.contains_key(p) && m2[p].contains_key(k) && m2[p][k] == v);
}

/// A write under one key never changes what another key resolves to,
/// from any directory.
pub proof fn lemma_set_other_key(
    m: Map<Seq<Seq<char>>, Map<Seq<char>, Seq<char>>>,
    p: Seq<Seq<char>>,
    q: Seq<Seq<char>>,
    k: Seq<char>,
    k2: Seq<char>,
    v: Seq<char>,
)
    requires
        k2 != k,
    ensures
        resolve_one(set_spec(m, p, k, v), q, k2) == resolve_one(m, q, k2),
    decreases q.len(),
{
    let m2 = set_spec(m, p, k, v);
    if q == p {
        assert(m2[q].contains_key(k2) == scope_at(m, p).contains_key(k2));
        assert(scope_at(m, p).contains_key(k2) ==> m.contains_key(p) && m[p].contains_key(k2)
            && scope_at(m, p)[k2] == m[p][k2]);
    }
    if q.len() > 0 {
        lemma_set_other_key(m, p, q.drop_last(), k, k2, v);
    }
}

/// A write at a directory that is not an ancestor of `q` (nor `q`
/// itself) never changes what resolves from `q`.
pub proof fn lemma_set_unrelated_dir(
    m: Map<Seq<Seq<char>>, Map<Seq<char>, Seq<char>>>,
    p: Seq<Seq<char>>,
    q: Seq<Seq<char>>,
    k: Seq<char>,
    k2: Seq<char>,
    v: Seq<char>,
)
    requires
        !p.is_prefix_of(q),
    ensures
        resolve_one(set_spec(m, p, k, v), q, k2) == resolve_one(m, q, k2),
    decreases q.len(),
{
    let m2 = set_spec(m, p, k, v);
    assert(q != p) by {
        if q == p {
            assert(p =~= q.subrange(0, p.len() as int));
        }
    }
    if q.len() > 0 {
        assert(!p.is_prefix_of(q.drop_last())) by {
            if p.is_prefix_of(q.drop_last()) {
                assert(p =~= q.subrange(0, p.len() as int));
            }
        }
        lemma_set_unrelated_dir(m, p, q.drop_last(), k, k2, v);
    }
}

/// A write at `p` is invisible from `q` when a directory `r` nearer to
/// `q` than `p` already defines the key: the nearer scope shadows it.
pub proof fn lemma_set_shadowed(
    m: Map<Seq<Seq<char>>, Map<Seq<char>, Seq<char>>>,
    p: Seq<Seq<char>>,
    r: Seq<Seq<char>>,
    q: Seq<Seq<char>>,
    k: Seq<char>,
    v: Seq<char>,
)
    requires
        r.is_prefix_of(q),
        r.len() > p.len(),
        scope_at(m, r).contains_key(k),
    ensures
        resolve_one(set_spec(m, p, k, v), q, k) == resolve_one(m, q, k),
    decreases q.len(),
{
    let m2 = set_spec(m, p, k, v);
    assert(q.len() > 0);
    assert(q != p);
    if m.contains_key(q) && m[q].contains_key(k) {
        assert(m2.contains_key(q) && m2[q] == m[q]);
    } else {
        assert(r != q) by {
            if r == q {
                assert(scope_at(m, q).contains_key(k));
            }
        }
        assert(r.is_prefix_of(q.drop_last())) by {
            assert(r.len() < q.len()) by {
                if r.len() == q.len() {
                    assert(r =~= q);
                }
            }
            assert(r =~= q.drop_last().subrange(0, r.len() as int));
        }
        lemma_set_shadowed(m, p, r, q.drop_last(), k, v);
    }
}

/// One invocation's working state: the path of the persisted file, the
/// working directory the resolution is scoped to, and the loaded store.
pub struct Projector {
    /// The path of the persisted store file.
    pub config: String,
    /// The working directory all operations resolve against.
    pub pwd: DirPath,
    /// The loaded store.
    pub data: Store,
}

impl Projector {
    /// The working directory is normalized and the store well formed.
    pub open spec fn wf(&self) -> bool {
        self.pwd.wf() && self.data.wf()
    }

    /// The scope on the ancestor chain at depth `depth`, when the store
    /// holds one, searched for `key`.
    fn lookup_level(&self, key: &str, depth: usize) -> (r: Option<&String>)
        requires
            self.wf(),
            depth <= self.pwd@.len(),
        ensures
            match r {
                Some(v) => scope_at(self.data@, self.pwd@.take(depth as int)).contains_key(key@)
                    && scope_at(self.data@, self.pwd@.take(depth as int))[key@] == v@,
                None => !scope_at(self.data@, self.pwd@.take(depth as int)).contains_key(key@),
            },
    {
        match self.data.scope_for_prefix(&self.pwd, depth) {
            Some(sc) => sc.get(key),
            None => None,
        }
    }

    /// The value `key` resolves to from the working directory: the
    /// nearest ancestor scope that defines it wins; absence is a normal
    /// outcome, not an error.
    pub fn get_value(&self, key: &str) -> (r: Option<String>)
        requires
            self.wf(),
        ensures
            r.deep_view() == resolve_one(self.data@, self.pwd@, key@),
    {
        let mut depth: usize = self.pwd.depth();
        proof {
            assert(self.pwd@.take(depth as int) =~= self.pwd@);
        }
        loop
            invariant
                self.wf(),
                depth <= self.pwd@.len(),
                resolve_one(self.data@, self.pwd@, key@) == resolve_one(
                    self.data@,
                    self.pwd@.take(depth as int),
                    key@,
                ),
            decreases depth,
        {
            let ghost level = self.pwd@.take(depth as int);
            match self.lookup_level(key, depth) {
                Some(v) => {
                    proof {
                        assert(self.data@.contains_key(level) && self.data@[level].contains_key(
                            key@,
                        ) && self.data@[level][key@] == v@);
                    }
                    return Some(v.clone());
                },
                None => {
                    proof {
                        assert(!(self.data@.contains_key(level) && self.data@[level].contains_key(
                            key@,
                        )));
                    }
                },
            }
            if depth == 0 {
                proof {
                    assert(level.len() == 0);
                }
                return None;
            }
            proof {
                assert(level.drop_last() =~= self.pwd@.take(depth as int - 1));
            }
            depth = depth - 1;
        }
    }

    /// Merges the scope at chain depth `depth` (nothing when the store
    /// holds none) onto the accumulator, the scope winning shared keys.
    fn merge_level(&self, acc: &mut Scope, depth: usize)
        requires
            self.wf(),
            old(acc).wf(),
            depth <= self.pwd@.len(),
        ensures
            final(acc).wf(),
            final(acc)@ == old(acc)@.union_prefer_right(
                scope_at(self.data@, self.pwd@.take(depth as int)),
            ),
    {
        match self.data.scope_for_prefix(&self.pwd, depth) {
            Some(sc) => acc.extend(sc),
            None => {
                proof {
                    assert(old(acc)@.union_prefer_right(
                        Map::<Seq<char>, Seq<char>>::empty(),
                    ) =~= old(acc)@);
                }
            },
        }
    }

    /// Every key visible from the working directory with its effective
    /// value: the ancestor scopes overlaid from the root downward, so
    /// that the nearest definition of each key wins.
    pub fn get_value_all(&self) -> (r: Scope)
        requires
            self.wf(),
        ensures
            r@ == resolve_all(self.data@, self.pwd@),
            r.wf(),
    {
        let n = self.pwd.depth();
        let mut acc = Scope::new();
        let mut depth: usize = 0;
        while depth < n
            invariant
                self.wf(),
                acc.wf(),
                n == self.pwd@.len(),
                depth <= n,
                depth == 0 ==> acc@ == Map::<Seq<char>, Seq<char>>::empty(),
                depth > 0 ==> acc@ == resolve_all(self.data@, self.pwd@.take(depth as int - 1)),
            decreases n - depth,
        {
            self.merge_level(&mut acc, depth);
            proof {
                lemma_merge_step(self.data@, self.pwd@, depth as int, acc@);
            }
            depth += 1;
        }
        self.merge_level(&mut acc, n);
        proof {
            lemma_merge_step(self.data@, self.pwd@, n as int, acc@);
            assert(self.pwd@.take(n as int) =~= self.pwd@);
        }
        acc
    }

    /// Inserts or overwrites `key` with `value` in the scope of exactly
    /// the working directory, creating that scope when absent; no other
    /// directory's scope changes.
    pub fn set_value(&mut self, key: &str, value: &str)
        requires
            old(self).wf(),
        ensures
            final(self).wf(),
            final(self).data@ == set_spec(old(self).data@, old(self).pwd@, key@, value@),
            final(self).pwd@ == old(self).pwd@,
            final(self).config == old(self).config,
    {
        let k = String::from_str(key);
        let v = String::from_str(value);
        self.data.set(&self.pwd, k, v);
    }

    /// Loads one invocation's state. `contents` is the persisted file's
    /// text when the file exists and could be read; a missing or
    /// unparsable file yields the empty store, so loading never fails.
    pub fn from_config(config: String, pwd: &str, contents: Option<&str>) -> (r: Projector)
        ensures
            r.wf(),
            r.config == config,
            r.pwd@ == normalize(pwd@),
            r.data@ == loaded_store(
                match contents {
                    Some(s) => Some(s@),
                    None => None,
                },
            ),
    {
        let data = match contents {
            Some(s) => store_from_json(s),
            None => Store::new(),
        };
        Projector { config, pwd: DirPath::parse(pwd), data }
    }

    /// The persisted document for the held store, as text; writing it to
    /// the store file is the surrounding layer's part.
    pub fn to_json(&self) -> (r: String)
        ensures
            r@ == json_store(self.data.scope_seq()),
    {
        store_to_json(&self.data)
    }

    /// Removes `key` from the scope of exactly the working directory; a
    /// silent no-op when the scope or the key is absent.
    pub fn remove_value(&mut self, key: &str)
        requires
            old(self).wf(),
        ensures
            final(self).wf(),
            final(self).data@ == remove_spec(old(self).data@, old(self).pwd@, key@),
            final(self).pwd@ == old(self).pwd@,
            final(self).config == old(self).config,
    {
        self.data.unset(&self.pwd, key);
    }
}

/// One overlay step: merging the scope at chain depth `d` onto the
/// merge of the levels before it yields the merge up to `d`.
proof fn lemma_merge_step(
    m: Map<Seq<Seq<char>>, Map<Seq<char>, Seq<char>>>,
    p: Seq<Seq<char>>,
    d: int,
    acc2: Map<Seq<char>, Seq<char>>,
)
    requires
        0 <= d <= p.len(),
    ensures
        d == 0 && acc2 == Map::<Seq<char>, Seq<char>>::empty().union_prefer_right(
            scope_at(m, p.take(0)),
        ) ==> acc2 == resolve_all(m, p.take(0)),
        d > 0 ==> resolve_all(m, p.take(d - 1)).union_prefer_right(scope_at(m, p.take(d)))
            == resolve_all(m, p.take(d)),
{
    if d == 0 {
        assert(p.take(0).len() == 0);
        assert(Map::<Seq<char>, Seq<char>>::empty().union_prefer_right(scope_at(m, p.take(0)))
            =~= scope_at(m, p.take(0)));
    } else {
        assert(p.take(d).drop_last() =~= p.take(d - 1));
        assert(p.take(d).len() == d);
    }
}

} // verus!
