//! The read-only asset table and its lookup by name.
use vstd::prelude::*;
use vstd::string::*;

use crate::text::{
    bytes_lt, compare_bytes, lemma_lt_irreflexive, lemma_lt_transitive,
    lemma_utf8_injective, strictly_sorted, Cmp,
};

verus! {

/// One embedded file: its name relative to the asset root, its bytes, its
/// MIME type and the digest of its bytes.
#[derive(Debug, Clone, Copy)]
pub struct Asset<'a> {
    pub name: &'a str,
    pub content: &'a [u8],
    pub content_type: &'a str,
    pub digest: &'a [u8],
}

impl<'a> Asset<'a> {
    /// The UTF-8 bytes of the name: the key that orders a table.
    pub open spec fn key(&self) -> Seq<u8> {
        self.name.spec_bytes()
    }
}

/// An immutable table of assets, sorted by name.
pub struct AssetMap<'a> {
    pub members: &'a [Asset<'a>],
}

/// The keys of a sequence of assets, in order.
pub open spec fn asset_keys<'a>(members: Seq<Asset<'a>>) -> Seq<Seq<u8>> {
    members.map_values(|a: Asset<'a>| a.key())
}

impl<'a> AssetMap<'a> {
    /// The names strictly increase, so that no two members share a name.
    pub open spec fn wf(&self) -> bool {
        strictly_sorted(asset_keys(self.members@))
    }

    /// Whether the names strictly increase, checked pair by pair.
    pub fn is_well_formed(&self) -> (r: bool)
        ensures
            r == self.wf(),
    {
        let ghost keys = asset_keys(self.members@);
        let n = self.members.len();
        if n == 0 {
            return true;
        }
        let mut i: usize = 1;
        while i < n
            invariant
                1 <= i <= n,
                n == self.members@.len(),
                keys == asset_keys(self.members@),
                forall|x: int, y: int| 0 <= x < y < i ==> bytes_lt(#[trigger] keys[x], #[trigger] keys[y]),
            decreases n - i,
        {
            let prev = self.members[i - 1].name.as_bytes();
            let here = self.members[i].name.as_bytes();
            match compare_bytes(prev, here) {
                Cmp::Less => {
                    proof {
                        assert forall|x: int, y: int| 0 <= x < y < i + 1 implies bytes_lt(
                            #[trigger] keys[x],
                            #[trigger] keys[y],
                        ) by {
                            if y == i && x < i - 1 {
                                lemma_lt_transitive(keys[x], keys[i - 1], keys[y]);
                            }
                        }
                    }
                },
                _ => {
                    proof {
                        assert(!bytes_lt(keys[i - 1], keys[i as int]));
                    }
                    return false;
                },
            }
            i = i + 1;
        }
        true
    }

    /// Looks up the member whose name is `s`, by binary search.
    pub fn get(&self, s: &str) -> (r: Option<&'a Asset<'a>>)
        requires
            self.wf(),
        ensures
            r is None <==> forall|i: int|
                0 <= i < self.members@.len() ==> (#[trigger] self.members@[i]).name@ != s@,
            forall|i: int|
                0 <= i < self.members@.len() && (#[trigger] self.members@[i]).name@ == s@
                    ==> r == Some(&self.members@[i]),
            r matches Some(a) ==> a.name@ == s@,
    {
        let key = s.as_bytes();
        let ghost members = self.members@;
        let ghost keys = asset_keys(members);
        let mut lo: usize = 0;
        let mut hi: usize = self.members.len();
        while lo < hi
            invariant
                lo <= hi <= members.len(),
                members == self.members@,
                keys == asset_keys(members),
                key@ == s.spec_bytes(),
                strictly_sorted(keys),
                forall|i: int| 0 <= i < lo ==> bytes_lt(#[trigger] keys[i], key@),
                forall|i: int| hi <= i < members.len() ==> bytes_lt(key@, #[trigger] keys[i]),
            decreases hi - lo,
        {
            let mid = lo + (hi - lo) / 2;
            let m = &self.members[mid];
            match compare_bytes(m.name.as_bytes(), key) {
                Cmp::Equal => {
                    proof {
                        assert(keys[mid as int] == members[mid as int].key());
                        lemma_utf8_injective(m.name@, s@);
                        assert forall|i: int|
                            0 <= i < members.len() && (#[trigger] members[i]).name@ == s@
                            implies i == mid by {
                            assert(keys[i] == members[i].key());
                            if i < mid {
                                assert(bytes_lt(keys[i], keys[mid as int]));
                                lemma_lt_irreflexive(key@);
                            } else if i > mid {
                                assert(bytes_lt(keys[mid as int], keys[i]));
                                lemma_lt_irreflexive(key@);
                            }
                        }
                    }
                    return Some(m);
                },
                Cmp::Less => {
                    proof {
                        assert forall|i: int| 0 <= i < mid + 1 implies bytes_lt(
                            #[trigger] keys[i],
                            key@,
                        ) by {
                            if i < mid {
                                lemma_lt_transitive(keys[i], keys[mid as int], key@);
                            }
                        }
                    }
                    lo = mid + 1;
                },
                Cmp::Greater => {
                    proof {
                        assert forall|i: int| mid <= i < members.len() implies bytes_lt(
                            key@,
                            #[trigger] keys[i],
                        ) by {
                            if i > mid {
                                lemma_lt_transitive(key@, keys[mid as int], keys[i]);
                            }
                        }
                    }
                    hi = mid;
                },
            }
        }
        proof {
            assert forall|i: int| 0 <= i < members.len() implies (
            #[trigger] members[i]).name@ != s@ by {
                assert(keys[i] == members[i].key());
                lemma_lt_irreflexive(key@);
            }
        }
        None
    }

    /// Walks the members in ascending name order, from the first.
    pub fn iter(&self) -> (r: MapIter<'a>)
        ensures
            r.members() == self.members@,
            r.position() == 0,
    {
        MapIter { members: self.members, pos: 0 }
    }
}

/// A walk over a table's members in order; each step hands out a copy.
pub struct MapIter<'a> {
    members: &'a [Asset<'a>],
    pos: usize,
}

impl<'a> MapIter<'a> {
    /// The members walked over.
    pub closed spec fn members(&self) -> Seq<Asset<'a>> {
        self.members@
    }

    /// How many members the walk has handed out.
    pub closed spec fn position(&self) -> int {
        self.pos as int
    }

    /// The next member, or `None` once every member has been handed out.
    pub fn next(&mut self) -> (r: Option<Asset<'a>>)
        ensures
            final(self).members() == old(self).members(),
            old(self).position() < old(self).members().len() ==> {
                &&& r == Some(old(self).members()[old(self).position()])
                &&& final(self).position() == old(self).position() + 1
            },
            old(self).position() >= old(self).members().len() ==> {
                &&& r is None
                &&& final(self).position() == old(self).position()
            },
    {
        if self.pos < self.members.len() {
            let a = self.members[self.pos];
            self.pos = self.pos + 1;
            Some(a)
        } else {
            None
        }
    }
}

} // verus!
