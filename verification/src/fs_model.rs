//! A model of the filesystem surface the engines drive.
//!
//! The engines' side effects go through a small command surface: look a
//! path up, write a node, remove a tree, resolve a symlink, list the
//! scratch root. This module gives that surface an explicit model — a
//! finite map from absolute paths to nodes — against which the engines
//! are verified. A set of denied paths models operations that fail
//! (permissions, races): a mutation on a denied path reports failure and
//! leaves the map unchanged, which is exactly how the engines' rollback
//! obligations are exercised.

use vstd::prelude::*;

use crate::bytes::{bytes_eq, copy_bytes, dir_prefix, is_prefix, starts_with, tree_keys, SLASH};
use crate::tmp::scratch_root;

verus! {

/// One filesystem node.
pub enum FsNode {
    /// A directory.
    Dir,
    /// A regular file (or an opaque content tree) with its content bytes.
    File(Vec<u8>),
    /// A symlink and its raw, unresolved target path.
    Symlink(Vec<u8>),
}

/// The mathematical value of a node.
pub enum NodeV {
    Dir,
    File(Seq<u8>),
    Symlink(Seq<u8>),
}

impl View for FsNode {
    type V = NodeV;

    open spec fn view(&self) -> NodeV {
        match self {
            FsNode::Dir => NodeV::Dir,
            FsNode::File(c) => NodeV::File(c@),
            FsNode::Symlink(t) => NodeV::Symlink(t@),
        }
    }
}

/// A fresh node with the same value.
pub fn clone_node(n: &FsNode) -> (r: FsNode)
    ensures
        r@ == n@,
{
    match n {
        FsNode::Dir => FsNode::Dir,
        FsNode::File(c) => FsNode::File(copy_bytes(c)),
        FsNode::Symlink(t) => FsNode::Symlink(copy_bytes(t)),
    }
}

/// What one lookup of `p` resolves to: the path itself for a plain node,
/// a symlink's target when that target exists, nothing otherwise.
pub open spec fn resolve_spec(m: Map<Seq<u8>, NodeV>, p: Seq<u8>) -> Option<Seq<u8>> {
    if !m.contains_key(p) {
        None
    } else {
        match m[p] {
            NodeV::Symlink(t) => if m.contains_key(t) {
                Some(t)
            } else {
                None
            },
            _ => Some(p),
        }
    }
}

/// A direct child of the scratch root: the scratch root prefix followed
/// by a nonempty name without a separator.
pub open spec fn direct_child(k: Seq<u8>) -> bool {
    &&& is_prefix(scratch_root(), k)
    &&& k.len() > scratch_root().len()
    &&& forall|j: int| scratch_root().len() <= j < k.len() ==> k[j] != SLASH
}

/// Is `key` a direct child of the scratch root?
fn is_direct_child(key: &Vec<u8>, root: &Vec<u8>) -> (r: bool)
    requires
        root@ == scratch_root(),
    ensures
        r == direct_child(key@),
{
    if !starts_with(key, root) {
        return false;
    }
    if key.len() <= root.len() {
        return false;
    }
    let mut j: usize = root.len();
    while j < key.len()
        invariant
            root@ == scratch_root(),
            is_prefix(scratch_root(), key@),
            key@.len() > root@.len(),
            root@.len() <= j <= key@.len(),
            forall|t: int| root@.len() <= t < j ==> key@[t] != SLASH,
        decreases key.len() - j,
    {
        if key[j] == SLASH {
            return false;
        }
        j += 1;
    }
    true
}

spec fn keys_distinct(es: Seq<(Vec<u8>, FsNode)>) -> bool {
    forall|a: int, b: int| 0 <= a < b < es.len() ==> es[a].0@ != es[b].0@
}

spec fn map_of(es: Seq<(Vec<u8>, FsNode)>) -> Map<Seq<u8>, NodeV>
    decreases es.len(),
{
    if es.len() == 0 {
        Map::empty()
    } else {
        map_of(es.drop_last()).insert(es.last().0@, es.last().1@)
    }
}

proof fn lemma_map_entry(es: Seq<(Vec<u8>, FsNode)>, a: int)
    requires
        keys_distinct(es),
        0 <= a < es.len(),
    ensures
        map_of(es).contains_key(es[a].0@),
        map_of(es)[es[a].0@] == es[a].1@,
    decreases es.len(),
{
    if a < es.len() - 1 {
        assert(es.drop_last()[a] == es[a]);
        assert(keys_distinct(es.drop_last())) by {
            assert(forall|x: int|
                0 <= x < es.drop_last().len() ==> es.drop_last()[x] == es[x]);
        }
        lemma_map_entry(es.drop_last(), a);
        assert(es[a].0@ != es.last().0@);
    }
}

proof fn lemma_map_absent(es: Seq<(Vec<u8>, FsNode)>, k: Seq<u8>)
    requires
        forall|a: int| 0 <= a < es.len() ==> es[a].0@ != k,
    ensures
        !map_of(es).contains_key(k),
    decreases es.len(),
{
    if es.len() > 0 {
        assert(forall|a: int| 0 <= a < es.drop_last().len() ==> es.drop_last()[a] == es[a]);
        lemma_map_absent(es.drop_last(), k);
    }
}

proof fn lemma_map_key_index(es: Seq<(Vec<u8>, FsNode)>, k: Seq<u8>)
    requires
        map_of(es).contains_key(k),
    ensures
        exists|a: int| 0 <= a < es.len() && es[a].0@ == k,
    decreases es.len(),
{
    if es.len() > 0 {
        if es.last().0@ == k {
            assert(es[es.len() - 1].0@ == k);
        } else {
            lemma_map_key_index(es.drop_last(), k);
            let a = choose|a: int|
                0 <= a < es.drop_last().len() && es.drop_last()[a].0@ == k;
            assert(es[a].0@ == k);
        }
    }
}

/// The filesystem model: a finite path-to-node map, plus the set of
/// paths on which mutations are made to fail.
pub struct FsModel {
    entries: Vec<(Vec<u8>, FsNode)>,
    denied: Vec<Vec<u8>>,
}

impl View for FsModel {
    type V = Map<Seq<u8>, NodeV>;

    closed spec fn view(&self) -> Map<Seq<u8>, NodeV> {
        map_of(self.entries@)
    }
}

impl FsModel {
    /// Internal consistency: one entry per path.
    pub closed spec fn wf(&self) -> bool {
        keys_distinct(self.entries@)
    }

    /// The paths on which mutations fail.
    pub closed spec fn denied_of(&self) -> Set<Seq<u8>> {
        Set::new(
            |k: Seq<u8>|
                exists|a: int| 0 <= a < self.denied@.len() && self.denied@[a]@ == k,
        )
    }

    /// An empty filesystem with no denied paths.
    pub fn new() -> (r: FsModel)
        ensures
            r.wf(),
            r@ == Map::<Seq<u8>, NodeV>::empty(),
            r.denied_of() == Set::<Seq<u8>>::empty(),
    {
        let r = FsModel { entries: Vec::new(), denied: Vec::new() };
        proof {
            assert(r.denied_of() =~= Set::<Seq<u8>>::empty());
        }
        r
    }

    /// Marks a path as failing: later mutations on it report an error.
    pub fn deny(&mut self, p: Vec<u8>)
        requires
            old(self).wf(),
        ensures
            final(self).wf(),
            final(self)@ == old(self)@,
            final(self).denied_of() == old(self).denied_of().insert(p@),
    {
        let ghost k0: Seq<u8> = p@;
        self.denied.push(p);
        proof {
            let n = self.denied@.len();
            assert(self.denied@[n - 1]@ == k0);
            assert(self.denied_of() =~= old(self).denied_of().insert(k0)) by {
                assert forall|k: Seq<u8>| self.denied_of().contains(k) implies old(
                    self,
                ).denied_of().insert(k0).contains(k) by {
                    let a = choose|a: int| 0 <= a < n && self.denied@[a]@ == k;
                    if a < n - 1 {
                        assert(old(self).denied@[a]@ == k);
                    }
                }
                assert forall|k: Seq<u8>| old(self).denied_of().insert(k0).contains(
                    k,
                ) implies self.denied_of().contains(k) by {
                    if k != k0 {
                        let a = choose|a: int|
                            0 <= a < old(self).denied@.len() && old(self).denied@[a]@ == k;
                        assert(self.denied@[a]@ == k);
                    }
                }
            }
        }
    }

    fn denied_contains(&self, p: &Vec<u8>) -> (r: bool)
        ensures
            r == self.denied_of().contains(p@),
    {
        let mut i: usize = 0;
        while i < self.denied.len()
            invariant
                0 <= i <= self.denied.len(),
                forall|j: int| 0 <= j < i ==> self.denied@[j]@ != p@,
            decreases self.denied.len() - i,
        {
            if bytes_eq(&self.denied[i], p) {
                proof {
                    assert(self.denied@[i as int]@ == p@);
                }
                return true;
            }
            i += 1;
        }
        proof {
            if self.denied_of().contains(p@) {
                let a = choose|a: int|
                    0 <= a < self.denied@.len() && self.denied@[a]@ == p@;
                assert(false);
            }
        }
        false
    }

    /// Looks up the node at a path without following symlinks.
    pub fn lookup(&self, p: &Vec<u8>) -> (r: Option<&FsNode>)
        requires
            self.wf(),
        ensures
            match r {
                None => !self@.contains_key(p@),
                Some(n) => self@.contains_key(p@) && n@ == self@[p@],
            },
    {
        let mut i: usize = 0;
        while i < self.entries.len()
            invariant
                self.wf(),
                0 <= i <= self.entries.len(),
                forall|j: int| 0 <= j < i ==> self.entries@[j].0@ != p@,
            decreases self.entries.len() - i,
        {
            if bytes_eq(&self.entries[i].0, p) {
                proof {
                    lemma_map_entry(self.entries@, i as int);
                }
                return Some(&self.entries[i].1);
            }
            i += 1;
        }
        proof {
            lemma_map_absent(self.entries@, p@);
        }
        None
    }

    /// Does any node exist at this exact path?
    pub fn contains(&self, p: &Vec<u8>) -> (r: bool)
        requires
            self.wf(),
        ensures
            r == self@.contains_key(p@),
    {
        match self.lookup(p) {
            Some(_) => true,
            None => false,
        }
    }

    /// Resolves a path one step, as the canonical live target of a link.
    pub fn resolve(&self, p: &Vec<u8>) -> (r: Option<Vec<u8>>)
        requires
            self.wf(),
        ensures
            match r {
                None => resolve_spec(self@, p@) is None,
                Some(t) => resolve_spec(self@, p@) == Some(t@),
            },
    {
        match self.lookup(p) {
            None => None,
            Some(n) => match n {
                FsNode::Symlink(t) => {
                    let tc = copy_bytes(t);
                    if self.contains(&tc) {
                        Some(tc)
                    } else {
                        None
                    }
                },
                _ => Some(copy_bytes(p)),
            },
        }
    }

    /// Writes (creates or replaces) the node at a path.
    pub fn put(&mut self, p: &Vec<u8>, n: FsNode) -> (r: Result<(), ()>)
        requires
            old(self).wf(),
        ensures
            final(self).wf(),
            final(self).denied_of() == old(self).denied_of(),
            match r {
                Ok(()) => !old(self).denied_of().contains(p@) && final(self)@ == old(
                    self,
                )@.insert(p@, n@),
                Err(()) => old(self).denied_of().contains(p@) && final(self)@ == old(self)@,
            },
    {
        if self.denied_contains(p) {
            return Err(());
        }
        let _ = self.take_out(p);
        let ghost mid = self.entries@;
        let ghost nv = n@;
        self.entries.push((copy_bytes(p), n));
        proof {
            assert(self.entries@.drop_last() =~= mid);
            assert(self.entries@.last().0@ == p@);
            assert(self.entries@.last().1@ == nv);
            assert(map_of(self.entries@) =~= old(self)@.insert(p@, nv));
            assert(keys_distinct(self.entries@)) by {
                assert(forall|t: int| 0 <= t < mid.len() ==> self.entries@[t] == mid[t]);
            }
        }
        Ok(())
    }

    /// Removes the entry whose key equals `p`, if any; internal step of
    /// `put`. Returns whether an entry was dropped.
    fn take_out(&mut self, p: &Vec<u8>) -> (r: bool)
        requires
            old(self).wf(),
        ensures
            final(self).wf(),
            final(self).denied_of() == old(self).denied_of(),
            map_of(final(self).entries@) == old(self)@.remove(p@),
            forall|t: int|
                0 <= t < final(self).entries@.len() ==> final(self).entries@[t].0@ != p@,
            r == old(self)@.contains_key(p@),
    {
        let n_entries = self.entries.len();
        let mut kept: Vec<(Vec<u8>, FsNode)> = Vec::new();
        let mut found = false;
        let mut i: usize = 0;
        while i < n_entries
            invariant
                self.wf(),
                n_entries == self.entries@.len(),
                0 <= i <= n_entries,
                keys_distinct(kept@),
                forall|t: int| 0 <= t < kept@.len() ==> kept@[t].0@ != p@,
                forall|t: int|
                    #![trigger kept@[t]]
                    0 <= t < kept@.len() ==> exists|j: int|
                        0 <= j < i && kept@[t].0@ == #[trigger] self.entries@[j].0@,
                map_of(kept@) == map_of(self.entries@.subrange(0, i as int)).remove(p@),
                found == exists|j: int| 0 <= j < i && #[trigger] self.entries@[j].0@ == p@,
            decreases n_entries - i,
        {
            let ghost pre = self.entries@.subrange(0, i as int);
            let ghost cur = self.entries@.subrange(0, i + 1);
            proof {
                assert(cur.drop_last() =~= pre);
                assert(cur.last() == self.entries@[i as int]);
            }
            if bytes_eq(&self.entries[i].0, p) {
                found = true;
                proof {
                    assert(map_of(cur) == map_of(pre).insert(p@, self.entries@[i as int].1@));
                    assert(map_of(cur).remove(p@) =~= map_of(pre).remove(p@));
                }
            } else {
                let k = copy_bytes(&self.entries[i].0);
                let v = clone_node(&self.entries[i].1);
                let ghost old_kept = kept@;
                kept.push((k, v));
                proof {
                    let newk = self.entries@[i as int].0@;
                    let newv = self.entries@[i as int].1@;
                    assert(kept@.drop_last() =~= old_kept);
                    assert(kept@.last().0@ == newk);
                    assert(kept@.last().1@ == newv);
                    assert forall|t: int| 0 <= t < old_kept.len() implies kept@[t].0@ != newk by {
                        let j = choose|j: int|
                            0 <= j < i && old_kept[t].0@ == self.entries@[j].0@;
                        assert(self.entries@[j].0@ != newk);
                        assert(kept@[t] == old_kept[t]);
                    }
                    assert(map_of(kept@) == map_of(old_kept).insert(newk, newv));
                    assert(map_of(cur).remove(p@) =~= map_of(pre).remove(p@).insert(newk, newv));
                }
            }
            i += 1;
        }
        proof {
            assert(self.entries@.subrange(0, n_entries as int) =~= self.entries@);
            if found {
                let j = choose|j: int| 0 <= j < n_entries && self.entries@[j].0@ == p@;
                lemma_map_entry(self.entries@, j);
            } else {
                lemma_map_absent(self.entries@, p@);
                assert(!old(self)@.contains_key(p@));
            }
        }
        self.entries = kept;
        found
    }

    /// Removes the node at `dir` and every node below it, as removing a
    /// whole tree does. Fails, changing nothing, when `dir` is denied.
    pub fn remove_tree(&mut self, dir: &Vec<u8>) -> (r: Result<(), ()>)
        requires
            old(self).wf(),
        ensures
            final(self).wf(),
            final(self).denied_of() == old(self).denied_of(),
            match r {
                Ok(()) => !old(self).denied_of().contains(dir@) && final(self)@ == old(
                    self,
                )@.remove_keys(tree_keys(dir@)),
                Err(()) => old(self).denied_of().contains(dir@) && final(self)@ == old(self)@,
            },
    {
        if self.denied_contains(dir) {
            return Err(());
        }
        let dslash = dir_prefix(dir);
        let n_entries = self.entries.len();
        let mut kept: Vec<(Vec<u8>, FsNode)> = Vec::new();
        let mut i: usize = 0;
        while i < n_entries
            invariant
                self.wf(),
                n_entries == self.entries@.len(),
                dslash@ == dir@.push(SLASH),
                0 <= i <= n_entries,
                keys_distinct(kept@),
                forall|t: int|
                    #![trigger kept@[t]]
                    0 <= t < kept@.len() ==> exists|j: int|
                        0 <= j < i && kept@[t].0@ == #[trigger] self.entries@[j].0@,
                map_of(kept@) == map_of(self.entries@.subrange(0, i as int)).remove_keys(
                    tree_keys(dir@),
                ),
            decreases n_entries - i,
        {
            let ghost pre = self.entries@.subrange(0, i as int);
            let ghost cur = self.entries@.subrange(0, i + 1);
            proof {
                assert(cur.drop_last() =~= pre);
                assert(cur.last() == self.entries@[i as int]);
            }
            let hit = bytes_eq(&self.entries[i].0, dir) || starts_with(
                &self.entries[i].0,
                &dslash,
            );
            if hit {
                proof {
                    assert(crate::bytes::in_tree(dir@, self.entries@[i as int].0@));
                    assert(map_of(cur).remove_keys(tree_keys(dir@)) =~= map_of(pre).remove_keys(
                        tree_keys(dir@),
                    ));
                }
            } else {
                let k = copy_bytes(&self.entries[i].0);
                let v = clone_node(&self.entries[i].1);
                let ghost old_kept = kept@;
                kept.push((k, v));
                proof {
                    let newk = self.entries@[i as int].0@;
                    let newv = self.entries@[i as int].1@;
                    assert(!crate::bytes::in_tree(dir@, newk));
                    assert(kept@.drop_last() =~= old_kept);
                    assert(kept@.last().0@ == newk);
                    assert(kept@.last().1@ == newv);
                    assert forall|t: int| 0 <= t < old_kept.len() implies kept@[t].0@ != newk by {
                        let j = choose|j: int|
                            0 <= j < i && old_kept[t].0@ == self.entries@[j].0@;
                        assert(self.entries@[j].0@ != newk);
                        assert(kept@[t] == old_kept[t]);
                    }
                    assert(map_of(kept@) == map_of(old_kept).insert(newk, newv));
                    assert(map_of(cur).remove_keys(tree_keys(dir@)) =~= map_of(pre).remove_keys(
                        tree_keys(dir@),
                    ).insert(newk, newv));
                }
            }
            i += 1;
        }
        proof {
            assert(self.entries@.subrange(0, n_entries as int) =~= self.entries@);
        }
        self.entries = kept;
        Ok(())
    }

    /// Lists the direct children of the scratch root: every present
    /// state-directory handle, each exactly once, in no promised order.
    pub fn enumerate(&self) -> (r: Vec<Vec<u8>>)
        requires
            self.wf(),
        ensures
            forall|a: int, b: int| 0 <= a < b < r@.len() ==> r@[a]@ != r@[b]@,
            forall|a: int|
                0 <= a < r@.len() ==> direct_child(r@[a]@) && self@.contains_key(r@[a]@),
            forall|k: Seq<u8>|
                self@.contains_key(k) && direct_child(k) ==> exists|a: int|
                    0 <= a < r@.len() && r@[a]@ == k,
    {
        let root = crate::tmp::tmp_dir();
        let mut out: Vec<Vec<u8>> = Vec::new();
        let mut i: usize = 0;
        while i < self.entries.len()
            invariant
                self.wf(),
                root@ == scratch_root(),
                0 <= i <= self.entries.len(),
                forall|t: int|
                    #![trigger out@[t]]
                    0 <= t < out@.len() ==> exists|j: int|
                        0 <= j < i && out@[t]@ == #[trigger] self.entries@[j].0@,
                forall|t: int|
                    0 <= t < out@.len() ==> direct_child(out@[t]@) && self@.contains_key(out@[t]@),
                forall|a: int, b: int| 0 <= a < b < out@.len() ==> out@[a]@ != out@[b]@,
                forall|j: int|
                    #![trigger self.entries@[j]]
                    0 <= j < i && direct_child(self.entries@[j].0@) ==> exists|t: int|
                        0 <= t < out@.len() && #[trigger] out@[t]@ == self.entries@[j].0@,
            decreases self.entries.len() - i,
        {
            let key = &self.entries[i].0;
            let child = is_direct_child(key, &root);
            if child {
                let ghost old_out = out@;
                out.push(copy_bytes(key));
                proof {
                    let newk = self.entries@[i as int].0@;
                    lemma_map_entry(self.entries@, i as int);
                    assert(out@.drop_last() =~= old_out);
                    assert(out@.last()@ == newk);
                    assert forall|t: int| 0 <= t < old_out.len() implies out@[t]@ != newk by {
                        let j = choose|j: int|
                            0 <= j < i && old_out[t]@ == self.entries@[j].0@;
                        assert(self.entries@[j].0@ != newk);
                        assert(out@[t] == old_out[t]);
                    }
                }
            } else {
                proof {
                    assert(!direct_child(self.entries@[i as int].0@));
                }
            }
            i += 1;
        }
        proof {
            assert forall|k: Seq<u8>|
                self@.contains_key(k) && direct_child(k) implies exists|a: int|
                0 <= a < out@.len() && out@[a]@ == k by {
                lemma_map_key_index(self.entries@, k);
                let j = choose|j: int|
                    0 <= j < self.entries@.len() && self.entries@[j].0@ == k;
                assert(direct_child(self.entries@[j].0@));
            }
        }
        out
    }
}

} // verus!
