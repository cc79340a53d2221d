//! The piece layers of a torrent, keyed by the root of the file they belong to.

use crate::bencode::{bytes_less, is_less};
use crate::bencode_laws::lemma_bytes_less_strict;
use crate::hash::{digests, Sha256Hash};
use crate::path_order::lemma_bytes_total;
use vstd::prelude::*;
use vstd::slice::slice_to_vec;

verus! {

/// Layers in increasing order of their roots.
#[derive(Debug, Eq, PartialEq)]
pub struct PieceLayers {
    entries: Vec<(Sha256Hash, Vec<Sha256Hash>)>,
}

/// Whether the roots strictly increase.
spec fn increasing(entries: Seq<(Sha256Hash, Vec<Sha256Hash>)>) -> bool {
    forall|i: int, j: int|
        0 <= i < j < entries.len() ==> bytes_less(
            (#[trigger] entries[i]).0@,
            (#[trigger] entries[j]).0@,
        )
}

/// Whether an entry belongs to a root.
spec fn has_root(entries: Seq<(Sha256Hash, Vec<Sha256Hash>)>, root: Seq<u8>) -> bool {
    exists|i: int| 0 <= i < entries.len() && (#[trigger] entries[i]).0@ == root
}

spec fn index_of(entries: Seq<(Sha256Hash, Vec<Sha256Hash>)>, root: Seq<u8>) -> int {
    choose|i: int| 0 <= i < entries.len() && (#[trigger] entries[i]).0@ == root
}

proof fn lemma_index_unique(
    entries: Seq<(Sha256Hash, Vec<Sha256Hash>)>,
    root: Seq<u8>,
    at: int,
)
    requires
        increasing(entries),
        0 <= at < entries.len(),
        entries[at].0@ == root,
    ensures
        has_root(entries, root),
        index_of(entries, root) == at,
{
    let other = index_of(entries, root);
    lemma_bytes_less_strict(root, root, root);
    if other < at {
        assert(bytes_less(entries[other].0@, entries[at].0@));
    } else if at < other {
        assert(bytes_less(entries[at].0@, entries[other].0@));
    }
}

impl View for PieceLayers {
    type V = Map<Seq<u8>, Seq<Seq<u8>>>;

    closed spec fn view(&self) -> Map<Seq<u8>, Seq<Seq<u8>>> {
        Map::new(
            |root: Seq<u8>| has_root(self.entries@, root),
            |root: Seq<u8>| digests(self.entries@[index_of(self.entries@, root)].1@),
        )
    }
}

impl PieceLayers {
    #[verifier::type_invariant]
    closed spec fn sorted(&self) -> bool {
        increasing(self.entries@)
    }

    /// Whether the roots stand in increasing order.
    pub closed spec fn sorted_roots(&self) -> bool {
        increasing(self.entries@)
    }

    /// The root of the layer at a position, in increasing order.
    pub closed spec fn spec_root_at(&self, at: int) -> Seq<u8> {
        self.entries@[at].0@
    }

    /// How many layers there are.
    pub closed spec fn spec_len(&self) -> nat {
        self.entries@.len()
    }

    pub fn new() -> (layers: Self)
        ensures
            layers@ == Map::<Seq<u8>, Seq<Seq<u8>>>::empty(),
            layers.spec_len() == 0,
    {
        let layers = PieceLayers { entries: Vec::new() };
        assert(layers@ =~= Map::<Seq<u8>, Seq<Seq<u8>>>::empty());
        layers
    }

    pub fn len(&self) -> (len: usize)
        ensures
            len == self.spec_len(),
            self.sorted_roots(),
    {
        proof {
            use_type_invariant(self);
        }
        self.entries.len()
    }

    /// The layer at a position, in increasing order of the roots.
    pub closed spec fn spec_layer_at(&self, at: int) -> Seq<Seq<u8>> {
        digests(self.entries@[at].1@)
    }

    /// The layer at a position belongs to the root at that position.
    pub proof fn law_layer_belongs_to_root(&self, at: int)
        requires
            self.sorted_roots(),
            0 <= at < self.spec_len(),
        ensures
            self@.contains_key(self.spec_root_at(at)),
            self@[self.spec_root_at(at)] == self.spec_layer_at(at),
            self.spec_root_at(at).len() == 32,
    {
        lemma_index_unique(self.entries@, self.spec_root_at(at), at);
        self.entries@[at].0.lemma_length();
    }

    /// Roots at later positions are larger.
    pub proof fn law_roots_increase(&self, i: int, j: int)
        requires
            self.sorted_roots(),
            0 <= i < j < self.spec_len(),
        ensures
            bytes_less(self.spec_root_at(i), self.spec_root_at(j)),
    {
    }

    pub fn root_at(&self, at: usize) -> (root: &Sha256Hash)
        requires
            at < self.spec_len(),
        ensures
            root@ == self.spec_root_at(at as int),
    {
        &self.entries[at].0
    }

    pub fn layer_at(&self, at: usize) -> (layer: &Vec<Sha256Hash>)
        requires
            at < self.spec_len(),
        ensures
            digests(layer@) == self.spec_layer_at(at as int),
    {
        &self.entries[at].1
    }

    /// The roots that have a layer are those at some position.
    pub proof fn lemma_roots(&self, root: Seq<u8>)
        ensures
            self@.contains_key(root) <==> exists|i: int|
                0 <= i < self.spec_len() && #[trigger] self.spec_root_at(i) == root,
    {
        if self@.contains_key(root) {
            let i = index_of(self.entries@, root);
            assert(self.spec_root_at(i) == root);
        }
        if exists|i: int| 0 <= i < self.spec_len() && #[trigger] self.spec_root_at(i) == root {
            let i = choose|i: int|
                0 <= i < self.spec_len() && #[trigger] self.spec_root_at(i) == root;
            assert(self.entries@[i].0@ == root);
        }
    }

    /// No root has two positions.
    pub proof fn lemma_distinct(&self, i: int, j: int)
        requires
            0 <= i < self.spec_len(),
            0 <= j < self.spec_len(),
            self.spec_root_at(i) == self.spec_root_at(j),
            self.sorted_roots(),
        ensures
            i == j,
    {
        lemma_index_unique(self.entries@, self.spec_root_at(i), i);
        lemma_index_unique(self.entries@, self.spec_root_at(i), j);
    }

    /// The position of a root, or where it would have to go.
    fn position(&self, root: &Sha256Hash) -> (result: (bool, usize))
        ensures
            result.1 <= self.entries@.len(),
            result.0 ==> result.1 < self.entries@.len() && self.entries@[result.1 as int].0@
                == root@,
            !result.0 ==> {
                &&& forall|i: int|
                    0 <= i < result.1 ==> bytes_less((#[trigger] self.entries@[i]).0@, root@)
                &&& forall|i: int|
                    result.1 <= i < self.entries@.len() ==> bytes_less(
                        root@,
                        (#[trigger] self.entries@[i]).0@,
                    )
            },
    {
        proof {
            use_type_invariant(self);
        }
        let mut low: usize = 0;
        let mut high: usize = self.entries.len();
        while low < high
            invariant
                increasing(self.entries@),
                low <= high <= self.entries@.len(),
                forall|i: int| 0 <= i < low ==> bytes_less((#[trigger] self.entries@[i]).0@, root@),
                forall|i: int|
                    high <= i < self.entries@.len() ==> bytes_less(
                        root@,
                        (#[trigger] self.entries@[i]).0@,
                    ),
            decreases high - low,
        {
            let middle: usize = low + (high - low) / 2;
            let candidate = &self.entries[middle].0;
            if is_less(candidate.as_bytes(), root.as_bytes()) {
                assert forall|i: int| 0 <= i < middle + 1 implies bytes_less(
                    (#[trigger] self.entries@[i]).0@,
                    root@,
                ) by {
                    lemma_bytes_less_strict(
                        self.entries@[i].0@,
                        self.entries@[middle as int].0@,
                        root@,
                    );
                }
                low = middle + 1;
            } else if is_less(root.as_bytes(), candidate.as_bytes()) {
                assert forall|i: int| middle <= i < self.entries@.len() implies bytes_less(
                    root@,
                    (#[trigger] self.entries@[i]).0@,
                ) by {
                    lemma_bytes_less_strict(
                        root@,
                        self.entries@[middle as int].0@,
                        self.entries@[i].0@,
                    );
                }
                high = middle;
            } else {
                proof {
                    lemma_bytes_total(candidate@, root@);
                }
                return (true, middle);
            }
        }
        (false, low)
    }

    /// The layer below a root.
    pub fn get(&self, root: &Sha256Hash) -> (result: Option<&Vec<Sha256Hash>>)
        ensures
            match result {
                Some(layer) => self@.contains_key(root@) && self@[root@] == digests(layer@),
                None => !self@.contains_key(root@),
            },
    {
        proof {
            use_type_invariant(self);
        }
        let (found, at) = self.position(root);
        if found {
            proof {
                lemma_index_unique(self.entries@, root@, at as int);
            }
            Some(&self.entries[at].1)
        } else {
            proof {
                lemma_bytes_less_strict(root@, root@, root@);
            }
            None
        }
    }

    /// The position of the layer below a root.
    pub fn find(&self, root: &Sha256Hash) -> (result: Option<usize>)
        ensures
            match result {
                Some(at) => at < self.spec_len() && self.spec_root_at(at as int) == root@
                    && self@.contains_key(root@),
                None => !self@.contains_key(root@),
            },
    {
        proof {
            use_type_invariant(self);
        }
        let (found, at) = self.position(root);
        if found {
            proof {
                lemma_index_unique(self.entries@, root@, at as int);
            }
            Some(at)
        } else {
            proof {
                lemma_bytes_less_strict(root@, root@, root@);
            }
            None
        }
    }

    /// Puts a layer below a root, in place of one that was there.
    pub fn insert(&mut self, root: Sha256Hash, layer: Vec<Sha256Hash>)
        ensures
            final(self)@ == old(self)@.insert(root@, digests(layer@)),
    {
        proof {
            use_type_invariant(&*self);
        }
        let (found, at) = self.position(&root);
        let ghost before = self.entries@;
        let mut entries: Vec<(Sha256Hash, Vec<Sha256Hash>)> = Vec::new();
        std::mem::swap(&mut entries, &mut self.entries);
        if found {
            entries[at] = (root, layer);
        } else {
            entries.insert(at, (root, layer));
        }
        let ghost after = entries@;
        assert forall|i: int, j: int| 0 <= i < j < after.len() implies bytes_less(
            (#[trigger] after[i]).0@,
            (#[trigger] after[j]).0@,
        ) by {
            let shift = if found {
                0int
            } else {
                1int
            };
            let from_i = if i > at { i - shift } else { i };
            let from_j = if j > at { j - shift } else { j };
            if i != at && j != at {
                assert(after[i] == before[from_i]);
                assert(after[j] == before[from_j]);
            } else if i == at {
                assert(after[j] == before[from_j]);
                if found {
                    assert(bytes_less(before[at as int].0@, before[from_j].0@));
                }
            } else {
                assert(after[i] == before[from_i]);
                if found {
                    assert(bytes_less(before[from_i].0@, before[at as int].0@));
                }
            }
        }
        self.entries = entries;
        proof {
            lemma_index_unique(after, root@, at as int);
            assert forall|other: Seq<u8>| other != root@ implies has_root(after, other)
                == has_root(before, other) && (has_root(after, other) ==> after[index_of(
                after,
                other,
            )] == before[index_of(before, other)]) by {
                if has_root(before, other) {
                    let i = index_of(before, other);
                    let to = if found || i < at { i } else { i + 1 };
                    assert(after[to] == before[i]);
                    lemma_index_unique(after, other, to);
                }
                if has_root(after, other) {
                    let i = index_of(after, other);
                    let from = if found || i < at { i } else { i - 1 };
                    assert(after[i] == before[from]);
                    lemma_index_unique(before, other, from);
                }
            }
            assert(self@ =~= old(self)@.insert(root@, digests(layer@)));
        }
    }
}

impl Clone for PieceLayers {
    fn clone(&self) -> (copy: Self)
        ensures
            copy@ == self@,
            copy.spec_len() == self.spec_len(),
            forall|i: int|
                0 <= i < self.spec_len() ==> #[trigger] copy.spec_root_at(i) == self.spec_root_at(i),
            forall|i: int|
                0 <= i < self.spec_len() ==> #[trigger] copy.spec_layer_at(i)
                    == self.spec_layer_at(i),
    {
        proof {
            use_type_invariant(self);
        }
        let mut entries: Vec<(Sha256Hash, Vec<Sha256Hash>)> = Vec::new();
        let mut i: usize = 0;
        while i < self.entries.len()
            invariant
                i <= self.entries@.len(),
                entries@.len() == i,
                forall|k: int|
                    0 <= k < i ==> (#[trigger] entries@[k]).0@ == self.entries@[k].0@ && digests(
                        entries@[k].1@,
                    ) == digests(self.entries@[k].1@),
            decreases self.entries@.len() - i,
        {
            let layer = slice_to_vec(self.entries[i].1.as_slice());
            entries.push((self.entries[i].0, layer));
            i += 1;
        }
        let copy = PieceLayers { entries };
        proof {
            assert forall|root: Seq<u8>| has_root(copy.entries@, root) == has_root(
                self.entries@,
                root,
            ) by {
                if has_root(copy.entries@, root) {
                    let at = index_of(copy.entries@, root);
                    assert(self.entries@[at].0@ == root);
                }
                if has_root(self.entries@, root) {
                    let at = index_of(self.entries@, root);
                    assert(copy.entries@[at].0@ == root);
                }
            }
            assert forall|root: Seq<u8>| has_root(self.entries@, root) implies index_of(
                copy.entries@,
                root,
            ) == index_of(self.entries@, root) by {
                let at = index_of(self.entries@, root);
                assert(copy.entries@[at].0@ == root);
                lemma_index_unique(copy.entries@, root, at);
            }
            assert(copy@ =~= self@);
        }
        copy
    }
}

} // verus!
