//! Looking up digests in a list.

use crate::object::ObjectDigest;
use crate::sort::{sort_positions, sorted_range, sorts_before};
use crate::text::{
    bytes_before, bytes_less, bytes_less_irreflexive, bytes_less_total, bytes_less_transitive, same_bytes,
};
use vstd::prelude::*;

verus! {

/// The values of a list of digests.
pub open spec fn digests(list: Seq<ObjectDigest>) -> Seq<Seq<u8>> {
    list.map_values(|digest: ObjectDigest| digest@)
}

/// The digests of a list, each once in rising order, with the place where each
/// stands last.
pub struct DigestIndex {
    keys: Vec<Vec<u8>>,
    places: Vec<usize>,
}

impl DigestIndex {
    /// The index is of this list.
    pub closed spec fn of(&self, list: Seq<Seq<u8>>) -> bool {
        &&& self.places@.len() == self.keys@.len()
        &&& forall|i: int, j: int|
            0 <= i < j < self.keys@.len() ==> bytes_less(
                (#[trigger] self.keys@[i])@,
                (#[trigger] self.keys@[j])@,
            )
        &&& forall|k: int|
            0 <= k < self.keys@.len() ==> (#[trigger] self.places@[k]) < list.len()
                && list[self.places@[k] as int] == self.keys@[k]@ && stands_last(
                list,
                self.places@[k] as int,
            )
        &&& forall|i: int|
            0 <= i < list.len() ==> exists|k: int|
                0 <= k < self.keys@.len() && (#[trigger] self.keys@[k])@ == #[trigger] list[i]
    }
}

/// No later element of a list is the one at `at`.
pub open spec fn stands_last(list: Seq<Seq<u8>>, at: int) -> bool {
    forall|j: int| at < j < list.len() ==> #[trigger] list[j] != list[at]
}

impl DigestIndex {
    pub fn new(list: &[ObjectDigest]) -> (index: DigestIndex)
        ensures
            index.of(digests(list@)),
    {
        let ghost names = digests(list@);
        let mut all: Vec<Vec<u8>> = Vec::new();
        let mut at: usize = 0;
        while at < list.len()
            invariant
                at <= list@.len(),
                all@.len() == at,
                forall|i: int| 0 <= i < at ==> (#[trigger] all@[i])@ == list@[i]@,
            decreases list@.len() - at,
        {
            all.push(vstd::slice::slice_to_vec(list[at].as_bytes()));
            at += 1;
        }
        assert forall|i: int| 0 <= i < names.len() implies #[trigger] names[i] == all@[i]@ by {}
        let order = sort_positions(&all);
        let mut keys: Vec<Vec<u8>> = Vec::new();
        let mut places: Vec<usize> = Vec::new();
        let mut k: usize = 0;
        while k < order.len()
            invariant
                k <= order@.len(),
                names.len() == all@.len(),
                forall|i: int| 0 <= i < names.len() ==> #[trigger] names[i] == all@[i]@,
                sorted_range(all@, order@, 0, all@.len() as int),
                places@.len() == keys@.len(),
                k > 0 <==> keys@.len() > 0,
                k > 0 ==> keys@.last()@ == names[order@[k - 1] as int] && places@.last() == order@[k - 1],
                forall|i: int, j: int|
                    0 <= i < j < keys@.len() ==> bytes_less(
                        (#[trigger] keys@[i])@,
                        (#[trigger] keys@[j])@,
                    ),
                forall|i: int|
                    0 <= i < keys@.len() ==> (#[trigger] places@[i]) < names.len()
                        && names[places@[i] as int] == keys@[i]@,
                forall|i: int, p: int|
                    0 <= i < keys@.len() && 0 <= p < k && names[#[trigger] order@[p] as int] == (
                    #[trigger] keys@[i])@ ==> order@[p] <= places@[i],
                forall|p: int|
                    0 <= p < k ==> exists|i: int|
                        0 <= i < keys@.len() && (#[trigger] keys@[i])@ == names[#[trigger] order@[p] as int],
            decreases order@.len() - k,
        {
            let place = order[k];
            let ghost before = keys@;
            let ghost held = places@;
            let ghost name = names[place as int];
            proof {
                if k > 0 {
                    let q = order@[k - 1] as int;
                    assert(sorts_before(all@, order@[k - 1] as int, order@[k as int] as int));
                    assert(names[q] == all@[q]@ && names[place as int] == all@[place as int]@);
                    bytes_less_total(names[q], name);
                    bytes_less_irreflexive(name);
                    assert(names[q] != name ==> bytes_less(names[q], name));
                    assert(names[q] == name ==> q < place);
                }
            }
            let count: usize = keys.len();
            if count > 0 && same_bytes(&keys[count - 1], &all[place]) {
                places[count - 1] = place;
                proof {
                    assert forall|i: int, p: int|
                        0 <= i < keys@.len() && 0 <= p < k + 1 && names[#[trigger] order@[p] as int] == (
                        #[trigger] keys@[i])@ implies order@[p] <= places@[i] by {
                        if p < k {
                            assert(order@[p] <= held[i]);
                        } else if i < count - 1 {
                            assert(bytes_less(keys@[i]@, keys@[count - 1]@));
                            bytes_less_irreflexive(name);
                        }
                    }
                    assert forall|p: int| 0 <= p < k + 1 implies exists|i: int|
                        0 <= i < keys@.len() && (#[trigger] keys@[i])@ == names[#[trigger] order@[p] as int] by {
                        if p == k {
                            assert(keys@[count - 1]@ == names[order@[p] as int]);
                        }
                    }
                }
            } else {
                keys.push(vstd::slice::slice_to_vec(&all[place]));
                places.push(place);
                proof {
                    assert forall|i: int, j: int| 0 <= i < j < keys@.len() implies bytes_less(
                        (#[trigger] keys@[i])@,
                        (#[trigger] keys@[j])@,
                    ) by {
                        assert(keys@[i] == before[i]);
                        if j < before.len() {
                            assert(keys@[j] == before[j]);
                        } else if i < before.len() - 1 {
                            bytes_less_transitive(before[i]@, before.last()@, name);
                        }
                    }
                    assert forall|i: int| 0 <= i < keys@.len() implies (#[trigger] places@[i]) < names.len()
                        && names[places@[i] as int] == keys@[i]@ by {
                        if i < before.len() {
                            assert(places@[i] == held[i]);
                            assert(keys@[i] == before[i]);
                        }
                    }
                    assert forall|i: int, p: int|
                        0 <= i < keys@.len() && 0 <= p < k + 1 && names[#[trigger] order@[p] as int] == (
                        #[trigger] keys@[i])@ implies order@[p] <= places@[i] by {
                        if i < before.len() {
                            assert(keys@[i] == before[i]);
                            if p < k {
                                assert(order@[p] <= held[i]);
                            } else {
                                assert(bytes_less(keys@[i]@, keys@[before.len() as int]@));
                                bytes_less_irreflexive(name);
                            }
                        } else if p < k {
                            let w = choose|w: int|
                                0 <= w < before.len() && (#[trigger] before[w])@ == names[order@[p] as int];
                            assert(keys@[w] == before[w]);
                            assert(bytes_less(keys@[w]@, keys@[before.len() as int]@));
                            bytes_less_irreflexive(name);
                        }
                    }
                    assert forall|p: int| 0 <= p < k + 1 implies exists|i: int|
                        0 <= i < keys@.len() && (#[trigger] keys@[i])@ == names[#[trigger] order@[p] as int] by {
                        if p == k {
                            assert(keys@[before.len() as int]@ == names[order@[p] as int]);
                        } else {
                            let w = choose|w: int|
                                0 <= w < before.len() && (#[trigger] before[w])@ == names[order@[p] as int];
                            assert(keys@[w]@ == names[order@[p] as int]);
                        }
                    }
                }
            }
            k += 1;
        }
        proof {
            assert forall|i: int| 0 <= i < keys@.len() implies stands_last(
                names,
                (#[trigger] places@[i]) as int,
            ) by {
                assert forall|j: int| places@[i] < j < names.len() implies #[trigger] names[j]
                    != names[places@[i] as int] by {
                    assert(order@.contains(j as usize));
                    let p = choose|p: int| 0 <= p < order@.len() && order@[p] == j as usize;
                    if names[order@[p] as int] == keys@[i]@ {
                        assert(order@[p] <= places@[i]);
                    }
                }
            }
            assert forall|i: int| 0 <= i < names.len() implies exists|w: int|
                0 <= w < keys@.len() && (#[trigger] keys@[w])@ == (#[trigger] names[i]) by {
                assert(order@.contains(i as usize));
                let p = choose|p: int| 0 <= p < order@.len() && order@[p] == i as usize;
                let w = choose|w: int|
                    0 <= w < keys@.len() && (#[trigger] keys@[w])@ == names[order@[p] as int];
                assert(keys@[w]@ == names[i]);
            }
        }
        let index = DigestIndex { keys, places };
        proof {
            assert forall|k: int| 0 <= k < index.keys@.len() implies (#[trigger] index.places@[k])
                < names.len() && names[index.places@[k] as int] == index.keys@[k]@ && stands_last(
                names,
                index.places@[k] as int,
            ) by {
                assert(places@[k] < names.len());
            }
            assert forall|i: int| 0 <= i < names.len() implies exists|k: int|
                0 <= k < index.keys@.len() && (#[trigger] index.keys@[k])@ == #[trigger] names[i] by {
                let w = choose|w: int| 0 <= w < keys@.len() && (#[trigger] keys@[w])@ == names[i];
                assert(index.keys@[w]@ == names[i]);
            }
        }
        index
    }

    /// The place where a digest stands last in the list.
    pub fn find(&self, digest: &ObjectDigest, Ghost(list): Ghost<Seq<Seq<u8>>>) -> (found: Option<usize>)
        requires
            self.of(list),
        ensures
            match found {
                Some(at) => at < list.len() && list[at as int] == digest@ && stands_last(
                    list,
                    at as int,
                ),
                None => !list.contains(digest@),
            },
    {
        let mut low: usize = 0;
        let mut high: usize = self.keys.len();
        while low < high
            invariant
                self.of(list),
                low <= high <= self.keys@.len(),
                forall|k: int| 0 <= k < low ==> bytes_less((#[trigger] self.keys@[k])@, digest@),
                forall|k: int|
                    high <= k < self.keys@.len() ==> bytes_less(digest@, (#[trigger] self.keys@[k])@),
            decreases high - low,
        {
            let middle: usize = low + (high - low) / 2;
            let ghost key = self.keys@[middle as int]@;
            if bytes_before(&self.keys[middle], digest.as_bytes()) {
                proof {
                    assert forall|k: int| 0 <= k < middle + 1 implies bytes_less(
                        (#[trigger] self.keys@[k])@,
                        digest@,
                    ) by {
                        if k < middle {
                            bytes_less_transitive(self.keys@[k]@, key, digest@);
                        }
                    }
                }
                low = middle + 1;
            } else if same_bytes(&self.keys[middle], digest.as_bytes()) {
                assert(self.places@[middle as int] < list.len());
                return Some(self.places[middle]);
            } else {
                proof {
                    bytes_less_total(key, digest@);
                    assert forall|k: int| middle <= k < self.keys@.len() implies bytes_less(
                        digest@,
                        (#[trigger] self.keys@[k])@,
                    ) by {
                        if middle < k {
                            bytes_less_transitive(digest@, key, self.keys@[k]@);
                        }
                    }
                }
                high = middle;
            }
        }
        proof {
            bytes_less_irreflexive(digest@);
            if list.contains(digest@) {
                let i = choose|i: int| 0 <= i < list.len() && list[i] == digest@;
                let k = choose|k: int| 0 <= k < self.keys@.len() && (#[trigger] self.keys@[k])@ == list[i];
                if k < low {
                    assert(bytes_less(self.keys@[k]@, digest@));
                } else {
                    assert(bytes_less(digest@, self.keys@[k]@));
                }
            }
        }
        None
    }

    pub fn contains(&self, digest: &ObjectDigest, Ghost(list): Ghost<Seq<Seq<u8>>>) -> (yes: bool)
        requires
            self.of(list),
        ensures
            yes == list.contains(digest@),
    {
        match self.find(digest, Ghost(list)) {
            Some(at) => {
                assert(list[at as int] == digest@);
                true
            },
            None => false,
        }
    }

    /// How many different digests the list holds.
    pub fn count(&self, Ghost(list): Ghost<Seq<Seq<u8>>>) -> (count: usize)
        requires
            self.of(list),
        ensures
            count == list.to_set().len(),
    {
        proof {
            let keys = Seq::new(self.keys@.len(), |k: int| self.keys@[k]@);
            assert forall|i: int, j: int| 0 <= i < keys.len() && 0 <= j < keys.len() && i != j implies keys[i]
                != keys[j] by {
                bytes_less_irreflexive(keys[i]);
                if i < j {
                    assert(bytes_less(self.keys@[i]@, self.keys@[j]@));
                } else {
                    assert(bytes_less(self.keys@[j]@, self.keys@[i]@));
                }
            }
            keys.unique_seq_to_set();
            assert forall|name: Seq<u8>| list.contains(name) == keys.contains(name) by {
                if list.contains(name) {
                    let i = choose|i: int| 0 <= i < list.len() && list[i] == name;
                    let k = choose|k: int|
                        0 <= k < self.keys@.len() && (#[trigger] self.keys@[k])@ == list[i];
                    assert(keys[k] == name);
                }
                if keys.contains(name) {
                    let k = choose|k: int| 0 <= k < keys.len() && keys[k] == name;
                    assert(self.places@[k] < list.len());
                    assert(list[self.places@[k] as int] == name);
                }
            }
            assert(list.to_set() =~= keys.to_set());
        }
        self.keys.len()
    }
}

} // verus!
