//! Sets of paths in which a path is found under each of its spellings.

use vstd::prelude::*;

use vstd::hash_set::StringHashSet;
use vstd::utf8::{decode_utf8, decode_utf8_encode_utf8, valid_utf8};

use crate::encoding::read_utf8;
use crate::paths::{
    ancestors, ancestors_of, equal_bytes, law_normal, listed, normal, normalize, same_path,
};

verus! {

broadcast use crate::session::lemma_bytes;

/// A set of paths. Its view holds the normal spelling of each.
pub struct PathSet {
    texts: StringHashSet,
    others: Vec<Vec<u8>>,
}

impl View for PathSet {
    type V = Set<Seq<u8>>;

    closed spec fn view(&self) -> Set<Seq<u8>> {
        Set::new(
            |b: Seq<u8>|
                if valid_utf8(b) {
                    self.texts@.contains(decode_utf8(b))
                } else {
                    exists|k: int| 0 <= k < self.others@.len() && (#[trigger] self.others@[k])@ == b
                },
        )
    }
}

/// Whether a set holds exactly the paths of a sequence.
pub open spec fn gathers(set: Set<Seq<u8>>, paths: Seq<Seq<u8>>) -> bool {
    forall|p: Seq<u8>| #![trigger normal(p)] set.contains(normal(p)) <==> listed(paths, p)
}

impl PathSet {
    /// The empty set.
    pub fn new() -> (r: PathSet)
        ensures
            r@ == Set::<Seq<u8>>::empty(),
    {
        let r = PathSet { texts: StringHashSet::new(), others: Vec::new() };
        assert(r@ =~= Set::<Seq<u8>>::empty());
        r
    }

    /// Whether the set holds a path.
    pub fn contains(&self, path: &[u8]) -> (r: bool)
        ensures
            r == self@.contains(normal(path@)),
    {
        let key = normalize(path);
        match read_utf8(key.as_slice()) {
            Ok(text) => self.texts.contains(text.as_str()),
            Err(_) => self.others_hold(key.as_slice()),
        }
    }

    fn others_hold(&self, key: &[u8]) -> (r: bool)
        ensures
            r == exists|k: int|
                0 <= k < self.others@.len() && (#[trigger] self.others@[k])@ == key@,
    {
        let mut i: usize = 0;
        while i < self.others.len()
            invariant
                i <= self.others@.len(),
                forall|k: int| 0 <= k < i ==> (#[trigger] self.others@[k])@ != key@,
            decreases self.others@.len() - i,
        {
            if equal_bytes(self.others[i].as_slice(), key) {
                return true;
            }
            i = i + 1;
        }
        false
    }

    /// Adds a path; whether it was missing.
    pub fn insert(&mut self, path: &[u8]) -> (r: bool)
        ensures
            final(self)@ == old(self)@.insert(normal(path@)),
            r == !old(self)@.contains(normal(path@)),
    {
        let key = normalize(path);
        let ghost b = normal(path@);
        match read_utf8(key.as_slice()) {
            Ok(text) => {
                let r = self.texts.insert(text);
                proof {
                    assert forall|c: Seq<u8>| valid_utf8(c) && decode_utf8(c) == decode_utf8(
                        b,
                    ) implies c == b by {
                        decode_utf8_encode_utf8(c);
                        decode_utf8_encode_utf8(b);
                    }
                    assert(self@ =~= old(self)@.insert(b));
                }
                r
            },
            Err(_) => {
                if self.others_hold(key.as_slice()) {
                    assert(self@ =~= old(self)@.insert(b));
                    return false;
                }
                let ghost before = self.others@;
                self.others.push(key);
                proof {
                    assert(self.others@[before.len() as int]@ == b);
                    assert forall|c: Seq<u8>|
                        !valid_utf8(c) implies (self@.contains(c) <==> old(self)@.contains(c)
                        || c == b) by {
                        if old(self)@.contains(c) {
                            let k = choose|k: int|
                                0 <= k < before.len() && (#[trigger] before[k])@ == c;
                            assert(self.others@[k]@ == c);
                        }
                        if self@.contains(c) {
                            let k = choose|k: int|
                                0 <= k < self.others@.len() && (#[trigger] self.others@[k])@ == c;
                            if k < before.len() {
                                assert(before[k]@ == c);
                            }
                        }
                    }
                    assert(self@ =~= old(self)@.insert(b));
                }
                true
            },
        }
    }

    /// The set of the paths in a vector.
    pub fn of(paths: &Vec<Vec<u8>>) -> (r: PathSet)
        ensures
            gathers(r@, paths.deep_view()),
    {
        let mut r = PathSet::new();
        let ghost all = paths.deep_view();
        let mut i: usize = 0;
        while i < paths.len()
            invariant
                i <= paths@.len(),
                all == paths.deep_view(),
                gathers(r@, all.take(i as int)),
            decreases paths@.len() - i,
        {
            let ghost before = r@;
            let ghost some = all.take(i as int);
            r.insert(paths[i].as_slice());
            proof {
                assert(all[i as int] == paths@[i as int]@);
                lemma_gathers(before, some, all[i as int]);
                assert(all.take(i + 1) =~= some.push(all[i as int]));
            }
            i = i + 1;
        }
        assert(all.take(i as int) =~= all);
        r
    }

    /// Whether the set holds a path or one of those above it.
    pub fn holds_above(&self, path: &[u8]) -> (r: bool)
        ensures
            r == exists|k: int|
                0 <= k < ancestors_of(path@).len() && self@.contains(
                    normal(#[trigger] ancestors_of(path@)[k]),
                ),
    {
        let chain = ancestors(path);
        let mut i: usize = 0;
        while i < chain.len()
            invariant
                i <= chain@.len(),
                chain@.len() == ancestors_of(path@).len(),
                forall|k: int|
                    0 <= k < chain@.len() ==> (#[trigger] chain@[k])@ == ancestors_of(path@)[k],
                forall|k: int|
                    0 <= k < i ==> !self@.contains(normal(#[trigger] ancestors_of(path@)[k])),
            decreases chain@.len() - i,
        {
            if self.contains(chain[i].as_slice()) {
                assert(self@.contains(normal(ancestors_of(path@)[i as int])));
                return true;
            }
            i = i + 1;
        }
        false
    }
}

/// One more path in a set.
pub proof fn lemma_gathers(set: Set<Seq<u8>>, paths: Seq<Seq<u8>>, path: Seq<u8>)
    requires
        gathers(set, paths),
    ensures
        gathers(set.insert(normal(path)), paths.push(path)),
{
    let wide = paths.push(path);
    assert forall|p: Seq<u8>|
        #![trigger normal(p)]
        set.insert(normal(path)).contains(normal(p)) <==> listed(wide, p) by {
        law_normal(path, p);
        assert(wide[paths.len() as int] == path);
        if listed(paths, p) {
            let k = choose|k: int| 0 <= k < paths.len() && same_path(#[trigger] paths[k], p);
            assert(same_path(wide[k], p));
        }
        if listed(wide, p) {
            let k = choose|k: int| 0 <= k < wide.len() && same_path(#[trigger] wide[k], p);
            if k < paths.len() {
                assert(same_path(paths[k], p));
            }
        }
    }
}

} // verus!
