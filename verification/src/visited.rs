//! The visited set: the memoization table of the dependency closure. A
//! module key is the processing depth together with the module's base path
//! with the source extension stripped; marking a key a second time reports
//! it as already seen, so each module is processed once per top-level run.

use vstd::prelude::*;
use crate::bytes::bytes_eq;
use crate::resolver::{strip_py_ext, strip_py_extension};

verus! {

/// The key a module is memoized under: the depth of the pass that reached
/// it and its normalized path.
pub struct ModuleKey {
    pub depth: usize,
    pub path: Vec<u8>,
}

impl View for ModuleKey {
    type V = (int, Seq<u8>);

    open spec fn view(&self) -> (int, Seq<u8>) {
        (self.depth as int, self.path@)
    }
}

/// The key a candidate file is memoized under: its path with the source
/// extension stripped, tagged with the depth.
pub fn module_key(depth: usize, path: &Vec<u8>) -> (r: ModuleKey)
    ensures
        r@ == (depth as int, strip_py_ext(path@)),
{
    ModuleKey { depth, path: strip_py_extension(path) }
}

/// The set of keys a sequence of module keys stands for.
pub open spec fn keys_set(s: Seq<ModuleKey>) -> Set<(int, Seq<u8>)>
    decreases s.len(),
{
    if s.len() == 0 {
        Set::empty()
    } else {
        keys_set(s.drop_last()).insert(s.last()@)
    }
}

/// A key sequence's set holds exactly the views of its elements.
pub proof fn lemma_keys_set_contains(s: Seq<ModuleKey>, k: (int, Seq<u8>))
    ensures
        keys_set(s).contains(k) <==> exists|i: int| 0 <= i < s.len() && s[i]@ == k,
    decreases s.len(),
{
    if s.len() == 0 {
    } else {
        lemma_keys_set_contains(s.drop_last(), k);
        if keys_set(s).contains(k) {
            if s.last()@ == k {
                assert(s[s.len() - 1]@ == k);
            } else {
                let i = choose|i: int| 0 <= i < s.drop_last().len() && s.drop_last()[i]@ == k;
                assert(s[i]@ == k);
            }
        }
        if exists|i: int| 0 <= i < s.len() && s[i]@ == k {
            let i = choose|i: int| 0 <= i < s.len() && s[i]@ == k;
            if i < s.len() - 1 {
                assert(s.drop_last()[i]@ == k);
                assert(keys_set(s.drop_last()).contains(k));
            }
        }
    }
}

/// The visited set of one top-level run. Owned by that run and handed by
/// reference into every recursive dependency pass, so memoization spans
/// the whole closure computation without hidden global state.
pub struct VisitedSet {
    pub keys: Vec<ModuleKey>,
}

impl View for VisitedSet {
    type V = Set<(int, Seq<u8>)>;

    open spec fn view(&self) -> Set<(int, Seq<u8>)> {
        keys_set(self.keys@)
    }
}

impl VisitedSet {
    /// The empty visited set a top-level run starts with.
    pub fn new() -> (r: VisitedSet)
        ensures
            r@ == Set::<(int, Seq<u8>)>::empty(),
    {
        VisitedSet { keys: Vec::new() }
    }

    /// Marks a key as visited. Reports whether the key was fresh: a key
    /// already in the set is reported as seen and the set does not change,
    /// so the caller processes each module at most once.
    pub fn mark(&mut self, key: ModuleKey) -> (fresh: bool)
        ensures
            fresh == !old(self)@.contains(key@),
            final(self)@ == old(self)@.insert(key@),
    {
        let mut i: usize = 0;
        while i < self.keys.len()
            invariant
                i <= self.keys@.len(),
                self@ == old(self)@,
                self.keys@ == old(self).keys@,
                forall|j: int| 0 <= j < i ==> (#[trigger] self.keys@[j])@ != key@,
            decreases self.keys@.len() - i,
        {
            let k = &self.keys[i];
            if k.depth == key.depth && bytes_eq(&k.path, &key.path) {
                proof {
                    assert(self.keys@[i as int]@ == key@);
                    lemma_keys_set_contains(self.keys@, key@);
                    assert(old(self)@.contains(key@));
                    assert(old(self)@.insert(key@) =~= old(self)@);
                }
                return false;
            }
            i += 1;
        }
        proof {
            lemma_keys_set_contains(self.keys@, key@);
            assert(!old(self)@.contains(key@));
        }
        let ghost old_keys = self.keys@;
        self.keys.push(key);
        proof {
            assert(self.keys@.drop_last() =~= old_keys);
            assert(keys_set(self.keys@) == keys_set(old_keys).insert(self.keys@.last()@));
        }
        true
    }
}

/// Marking is idempotent: once a key is in the set it stays in it, and a
/// second insertion changes nothing — so importing the same module twice,
/// in one document or across two, triggers at most one processing pass.
pub proof fn lemma_mark_idempotent(s: Set<(int, Seq<u8>)>, k: (int, Seq<u8>))
    ensures
        s.insert(k).contains(k),
        s.insert(k).insert(k) == s.insert(k),
{
    assert(s.insert(k).insert(k) =~= s.insert(k));
}

} // verus!
