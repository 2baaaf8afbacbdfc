//! A finite map keyed by tags, as the history keeps its records.

use crate::rollpi::syntax::{views, ProcTag, ProcTagView};
use vstd::prelude::*;

verus! {

/// A finite map from tags to values of `V`. Two tags are the same key where
/// their views are the same.
pub struct TagMap<V> {
    keys: Vec<ProcTag>,
    vals: Vec<V>,
}

impl<V> TagMap<V> {
    /// The invariant of the representation: one value for each key, and no
    /// key twice.
    pub closed spec fn wf(&self) -> bool {
        &&& self.keys.len() == self.vals.len()
        &&& views(self.keys@).no_duplicates()
    }

    /// The keys, in the order in which they came.
    pub closed spec fn key_seq(&self) -> Seq<ProcTagView> {
        views(self.keys@)
    }

    /// The map that this value stands for.
    pub closed spec fn map(&self) -> Map<ProcTagView, V> {
        Map::new(
            |t: ProcTagView| views(self.keys@).contains(t),
            |t: ProcTagView| self.vals@[views(self.keys@).index_of(t)],
        )
    }

    /// The keys of the map are the members of `key_seq`, each once.
    pub proof fn lemma_keys(&self)
        requires
            self.wf(),
        ensures
            self.key_seq().no_duplicates(),
            forall|t: ProcTagView| self.key_seq().contains(t) <==> self.map().dom().contains(t),
    {
    }

    /// The empty map.
    pub fn new() -> (r: Self)
        ensures
            r.wf(),
            r.map() == Map::<ProcTagView, V>::empty(),
    {
        let r = TagMap { keys: Vec::new(), vals: Vec::new() };
        assert(r.map() =~= Map::<ProcTagView, V>::empty());
        r
    }

    fn position(&self, tag: &ProcTag) -> (i: usize)
        requires
            self.wf(),
        ensures
            i <= self.keys.len(),
            i < self.keys.len() ==> views(self.keys@)[i as int] == tag@ && views(
                self.keys@,
            ).index_of(tag@) == i,
            i == self.keys.len() ==> !views(self.keys@).contains(tag@),
    {
        let mut i: usize = 0;
        while i < self.keys.len()
            invariant
                self.wf(),
                i <= self.keys.len(),
                forall|j: int| 0 <= j < i ==> views(self.keys@)[j] != tag@,
            decreases self.keys.len() - i,
        {
            if self.keys[i].same_as(tag) {
                proof {
                    let ks = views(self.keys@);
                    assert(ks[i as int] == tag@);
                    assert(ks.contains(tag@));
                    let k = ks.index_of(tag@);
                    assert(0 <= k < ks.len() && ks[k] == tag@);
                    if k != i {
                        assert(ks[k] == ks[i as int]);
                    }
                }
                return i;
            }
            i += 1;
        }
        i
    }

    /// Whether `tag` is a key of the map.
    pub fn contains_key(&self, tag: &ProcTag) -> (b: bool)
        requires
            self.wf(),
        ensures
            b == self.map().dom().contains(tag@),
    {
        self.position(tag) < self.keys.len()
    }

    /// The value under `tag`, if there is one.
    pub fn get(&self, tag: &ProcTag) -> (r: Option<&V>)
        requires
            self.wf(),
        ensures
            match r {
                Some(v) => self.map().dom().contains(tag@) && *v == self.map()[tag@],
                None => !self.map().dom().contains(tag@),
            },
    {
        let i = self.position(tag);
        if i < self.keys.len() {
            Some(&self.vals[i])
        } else {
            None
        }
    }

    /// Puts `v` under `tag`, in place of what was there.
    pub fn insert(&mut self, tag: ProcTag, v: V)
        requires
            old(self).wf(),
        ensures
            final(self).wf(),
            final(self).map() == old(self).map().insert(tag@, v),
            old(self).map().dom().contains(tag@) ==> final(self).key_seq() == old(self).key_seq(),
            !old(self).map().dom().contains(tag@) ==> final(self).key_seq() == old(
                self,
            ).key_seq().push(tag@),
    {
        let ghost ks = views(self.keys@);
        let ghost vs = self.vals@;
        let i = self.position(&tag);
        if i < self.keys.len() {
            self.vals.remove(i);
            self.vals.insert(i, v);
            proof {
                assert(self.vals@ =~= vs.update(i as int, v));
                assert forall|t: ProcTagView| #[trigger]
                    self.map().dom().contains(t) <==> old(self).map().insert(
                        tag@,
                        v,
                    ).dom().contains(t) by {}
                assert forall|t: ProcTagView| #[trigger] self.map().dom().contains(t) implies self.map()[t]
                    == old(self).map().insert(tag@, v)[t] by {
                    let k = ks.index_of(t);
                    assert(0 <= k < ks.len() && ks[k] == t);
                }
                assert(self.map() =~= old(self).map().insert(tag@, v));
            }
        } else {
            self.keys.push(tag);
            self.vals.push(v);
            proof {
                let ks2 = views(self.keys@);
                assert(ks2 =~= ks.push(tag@));
                assert forall|a: int, b: int| 0 <= a < b < ks2.len() implies ks2[a] != ks2[b] by {
                    if b == ks.len() {
                        assert(ks[a] == ks2[a]);
                        assert(ks.contains(ks[a]));
                    }
                }
                assert forall|t: ProcTagView| #[trigger]
                    self.map().dom().contains(t) <==> old(self).map().insert(
                        tag@,
                        v,
                    ).dom().contains(t) by {
                    if ks2.contains(t) {
                        let k = choose|k: int| 0 <= k < ks2.len() && ks2[k] == t;
                        if k < ks.len() {
                            assert(ks[k] == t);
                        }
                    }
                    if ks.contains(t) {
                        let k = choose|k: int| 0 <= k < ks.len() && ks[k] == t;
                        assert(ks2[k] == t);
                    }
                    if t == tag@ {
                        assert(ks2[ks.len() as int] == t);
                    }
                }
                assert forall|t: ProcTagView| #[trigger] self.map().dom().contains(t) implies self.map()[t]
                    == old(self).map().insert(tag@, v)[t] by {
                    let k2 = ks2.index_of(t);
                    assert(0 <= k2 < ks2.len() && ks2[k2] == t);
                    if t != tag@ {
                        assert(k2 < ks.len());
                        assert(ks[k2] == t);
                        let k = ks.index_of(t);
                        assert(0 <= k < ks.len() && ks[k] == t);
                        assert(ks2[k] == t);
                        assert(k == k2);
                    } else {
                        assert(ks2[ks.len() as int] == t);
                        assert(k2 == ks.len());
                    }
                }
                assert(self.map() =~= old(self).map().insert(tag@, v));
            }
        }
    }

    /// Takes out what is under `tag`, if anything, and hands it back.
    pub fn remove(&mut self, tag: &ProcTag) -> (r: Option<V>)
        requires
            old(self).wf(),
        ensures
            final(self).wf(),
            final(self).map() == old(self).map().remove(tag@),
            match r {
                Some(v) => old(self).map().dom().contains(tag@) && v == old(self).map()[tag@],
                None => !old(self).map().dom().contains(tag@),
            },
    {
        let ghost ks = views(self.keys@);
        let ghost vs = self.vals@;
        let i = self.position(tag);
        if i < self.keys.len() {
            self.keys.remove(i);
            let v = self.vals.remove(i);
            proof {
                let ks2 = views(self.keys@);
                let vs2 = self.vals@;
                assert(ks2 =~= ks.remove(i as int));
                assert(vs2 =~= vs.remove(i as int));
                assert forall|a: int, b: int| 0 <= a < b < ks2.len() implies ks2[a] != ks2[b] by {
                    let a0 = if a < i { a } else { a + 1 };
                    let b0 = if b < i { b } else { b + 1 };
                    assert(ks2[a] == ks[a0]);
                    assert(ks2[b] == ks[b0]);
                }
                assert forall|t: ProcTagView| #[trigger]
                    self.map().dom().contains(t) <==> old(self).map().remove(tag@).dom().contains(
                        t,
                    ) by {
                    if ks2.contains(t) {
                        let k = choose|k: int| 0 <= k < ks2.len() && ks2[k] == t;
                        let k0 = if k < i { k } else { k + 1 };
                        assert(ks[k0] == t);
                    }
                    if ks.contains(t) && t != tag@ {
                        let k = choose|k: int| 0 <= k < ks.len() && ks[k] == t;
                        let k2 = if k < i { k } else { k - 1 };
                        assert(ks2[k2] == t);
                    }
                }
                assert forall|t: ProcTagView| #[trigger] self.map().dom().contains(t) implies self.map()[t]
                    == old(self).map().remove(tag@)[t] by {
                    let k2 = ks2.index_of(t);
                    assert(0 <= k2 < ks2.len() && ks2[k2] == t);
                    let k0 = if k2 < i { k2 } else { k2 + 1 };
                    assert(ks[k0] == t);
                    let k = ks.index_of(t);
                    assert(0 <= k < ks.len() && ks[k] == t);
                    assert(k == k0);
                }
                assert(self.map() =~= old(self).map().remove(tag@));
            }
            Some(v)
        } else {
            assert(self.map() =~= old(self).map().remove(tag@));
            None
        }
    }
}

} // verus!
