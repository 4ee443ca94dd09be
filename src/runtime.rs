use rustc_hash::FxHashMap;
use vstd::prelude::*;

use crate::fxmap::{fx_get, fx_insert};
use crate::input::{InputIndex, InputStorage, KeyIndex};
use crate::revision::{Revision, START};

verus! {

/// The number under which the revision of cell (`i`, `k`) is filed: the input index in the
/// high half, the key index in the low half.
pub open spec fn cell_code(i: InputIndex, k: KeyIndex) -> u64 {
    ((i.0 as u64) << 32u64) | (k.0 as u64)
}

/// Distinct cells are filed under distinct numbers.
pub proof fn lemma_cell_code_injective(i1: InputIndex, k1: KeyIndex, i2: InputIndex, k2: KeyIndex)
    requires
        cell_code(i1, k1) == cell_code(i2, k2),
    ensures
        i1 == i2,
        k1 == k2,
{
    let a1 = i1.0 as u64;
    let a2 = i2.0 as u64;
    let b1 = k1.0 as u64;
    let b2 = k2.0 as u64;
    assert(a1 == a2 && b1 == b2) by (bit_vector)
        requires
            a1 < 0x10000u64,
            a2 < 0x10000u64,
            b1 < 0x1_0000_0000u64,
            b2 < 0x1_0000_0000u64,
            (a1 << 32u64) | b1 == (a2 << 32u64) | b2,
    ;
}

fn cell_key(i: InputIndex, k: KeyIndex) -> (r: u64)
    ensures
        r == cell_code(i, k),
{
    ((i.0 as u64) << 32u64) | (k.0 as u64)
}

/// The greatest of `stamps` over `deps`, or the first revision when `deps` is empty.
pub open spec fn max_stamp(stamps: spec_fn(InputIndex, KeyIndex) -> nat, deps: Seq<(InputIndex, KeyIndex)>) -> nat
    decreases deps.len(),
{
    if deps.len() == 0 {
        START as nat
    } else {
        let rest = max_stamp(stamps, deps.drop_last());
        let last = stamps(deps.last().0, deps.last().1);
        if last > rest {
            last
        } else {
            rest
        }
    }
}

/// `max_stamp` is at most `r` exactly when every cell of `deps` has a stamp at most `r`
/// (for any `r` from the first revision on).
pub proof fn lemma_max_stamp_bound(
    stamps: spec_fn(InputIndex, KeyIndex) -> nat,
    deps: Seq<(InputIndex, KeyIndex)>,
    r: nat,
)
    requires
        r >= START,
    ensures
        max_stamp(stamps, deps) <= r <==> forall|j: int|
            0 <= j < deps.len() ==> #[trigger] stamps(deps[j].0, deps[j].1) <= r,
    decreases deps.len(),
{
    if deps.len() > 0 {
        lemma_max_stamp_bound(stamps, deps.drop_last(), r);
        if max_stamp(stamps, deps) <= r {
            assert forall|j: int| 0 <= j < deps.len() implies #[trigger] stamps(deps[j].0, deps[j].1) <= r by {
                if j < deps.len() - 1 {
                    assert(deps[j] == deps.drop_last()[j]);
                }
            }
        } else {
            let last = stamps(deps.last().0, deps.last().1);
            if last <= r {
                let j = choose|j: int| 0 <= j < deps.drop_last().len() && !(#[trigger] stamps(deps.drop_last()[j].0, deps.drop_last()[j].1) <= r);
                assert(deps.drop_last()[j] == deps[j]);
            }
        }
    }
}

/// Every input table, the current revision, and the revision at which each cell last changed.
pub struct Runtime<V> {
    rev: Revision,
    inputs: Vec<InputStorage<V>>,
    input_revs: FxHashMap<u64, Revision>,
}

impl<V: Clone> Runtime<V> {
    /// The current revision.
    pub closed spec fn current(&self) -> nat {
        self.rev.value()
    }

    /// The values of input kind `i`, by key.
    pub closed spec fn input(&self, i: InputIndex) -> Map<u64, V> {
        if (i.0 as int) < self.inputs@.len() {
            self.inputs@[i.0 as int].view()
        } else {
            Map::empty()
        }
    }

    /// The key indices of input kind `i`, by key.
    pub closed spec fn indices(&self, i: InputIndex) -> Map<u64, KeyIndex> {
        if (i.0 as int) < self.inputs@.len() {
            self.inputs@[i.0 as int].indices()
        } else {
            Map::empty()
        }
    }

    /// How many key indices input kind `i` has minted.
    pub closed spec fn minted(&self, i: InputIndex) -> nat {
        if (i.0 as int) < self.inputs@.len() {
            self.inputs@[i.0 as int].minted()
        } else {
            0
        }
    }

    /// The revision at which cell (`i`, `k`) was last written; a cell never written counts as
    /// written at the first revision.
    pub closed spec fn stamp(&self, i: InputIndex, k: KeyIndex) -> nat {
        if self.input_revs@.contains_key(cell_code(i, k)) {
            self.input_revs@[cell_code(i, k)].value()
        } else {
            START as nat
        }
    }

    /// `stamp` as a spec function value.
    pub open spec fn stamps(&self) -> spec_fn(InputIndex, KeyIndex) -> nat {
        |i: InputIndex, k: KeyIndex| self.stamp(i, k)
    }

    /// The revision is positive, each table is well formed, and no stamp lies ahead of the
    /// current revision.
    pub closed spec fn wf(&self) -> bool {
        &&& self.rev.wf()
        &&& self.inputs@.len() <= 0x10000
        &&& forall|j: int| 0 <= j < self.inputs@.len() ==> (#[trigger] self.inputs@[j]).wf()
        &&& forall|c: u64| #[trigger]
            self.input_revs@.contains_key(c) ==> {
                &&& self.input_revs@[c].wf()
                &&& self.input_revs@[c].value() <= self.rev.value()
            }
    }

    /// `self` is the state right after one successful mutation of `prev`: the revision moved on
    /// by one.
    pub open spec fn mutated_from(&self, prev: &Self) -> bool {
        &&& prev.wf()
        &&& self.wf()
        &&& self.current() == prev.current() + 1
    }

    /// Every stamp lies between the first and the current revision.
    pub proof fn lemma_stamp_bounds(&self, i: InputIndex, k: KeyIndex)
        requires
            self.wf(),
        ensures
            START <= self.stamp(i, k) <= self.current(),
    {
    }

    pub fn new() -> (r: Self)
        ensures
            r.wf(),
            r.current() == START,
            forall|i: InputIndex| #[trigger] r.input(i) == Map::<u64, V>::empty(),
            forall|i: InputIndex| #[trigger] r.indices(i) == Map::<u64, KeyIndex>::empty(),
            forall|i: InputIndex| #[trigger] r.minted(i) == 0,
            forall|i: InputIndex, k: KeyIndex| #[trigger] r.stamp(i, k) == START,
    {
        Runtime {
            rev: Revision::new(),
            inputs: Vec::new(),
            input_revs: FxHashMap::default(),
        }
    }

    /// The current revision.
    pub fn rev(&self) -> (r: Revision)
        requires
            self.wf(),
        ensures
            r.wf(),
            r.value() == self.current(),
    {
        self.rev
    }

    /// The value of `key` in input kind `input` (a clone), if present. Records no dependency.
    pub fn get_input(&self, input: InputIndex, key: &u64) -> (r: Option<V>)
        requires
            self.wf(),
        ensures
            match r {
                Some(v) => self.input(input).contains_key(*key) && cloned(self.input(input)[*key], v),
                None => !self.input(input).contains_key(*key),
            },
    {
        match self.lookup(input, key) {
            Some((v, _)) => Some(v),
            None => None,
        }
    }

    /// The value of `key` in input kind `input` (a clone) and its key index, if present.
    pub fn lookup(&self, input: InputIndex, key: &u64) -> (r: Option<(V, KeyIndex)>)
        requires
            self.wf(),
        ensures
            match r {
                Some((v, k)) => {
                    &&& self.input(input).contains_key(*key)
                    &&& cloned(self.input(input)[*key], v)
                    &&& k == self.indices(input)[*key]
                },
                None => !self.input(input).contains_key(*key),
            },
    {
        let slot = input.0 as usize;
        if slot < self.inputs.len() {
            self.inputs[slot].get(key)
        } else {
            None
        }
    }

    /// Whether `set_input(input, key, _)` stays within the counters' ranges: the revision can
    /// move on, and a new key can get a key index.
    pub fn can_set_input(&self, input: InputIndex, key: &u64) -> (r: bool)
        requires
            self.wf(),
        ensures
            r == (self.current() < u64::MAX && (self.indices(input).contains_key(*key) || self.minted(input) < u32::MAX)),
    {
        if self.rev.as_raw() == u64::MAX {
            return false;
        }
        let slot = input.0 as usize;
        if slot < self.inputs.len() {
            self.inputs[slot].contains(key) || self.inputs[slot].minted_count() < u32::MAX
        } else {
            true
        }
    }

    /// Makes sure that a table exists for input kind `input`.
    fn ensure_table(&mut self, input: InputIndex)
        requires
            old(self).wf(),
        ensures
            final(self).wf(),
            (input.0 as int) < final(self).inputs@.len(),
            final(self).rev == old(self).rev,
            final(self).input_revs == old(self).input_revs,
            forall|i: InputIndex| #[trigger] final(self).input(i) == old(self).input(i),
            forall|i: InputIndex| #[trigger] final(self).indices(i) == old(self).indices(i),
            forall|i: InputIndex| #[trigger] final(self).minted(i) == old(self).minted(i),
    {
        while self.inputs.len() <= input.0 as usize
            invariant
                self.wf(),
                self.rev == old(self).rev,
                self.input_revs == old(self).input_revs,
                old(self).inputs@.len() <= self.inputs@.len(),
                self.inputs@.len() == old(self).inputs@.len() || self.inputs@.len() <= input.0 as int + 1,
                forall|j: int| 0 <= j < old(self).inputs@.len() ==> self.inputs@[j] == old(self).inputs@[j],
                forall|j: int| old(self).inputs@.len() <= j < self.inputs@.len() ==> {
                    &&& (#[trigger] self.inputs@[j]).view() == Map::<u64, V>::empty()
                    &&& self.inputs@[j].indices() == Map::<u64, KeyIndex>::empty()
                    &&& self.inputs@[j].minted() == 0
                },
            decreases input.0 as int + 1 - self.inputs@.len(),
        {
            self.inputs.push(InputStorage::new());
        }
        assert forall|i: InputIndex| #[trigger] self.input(i) == old(self).input(i) by {
            if (i.0 as int) < self.inputs@.len() && (i.0 as int) >= old(self).inputs@.len() {
                assert(self.inputs@[i.0 as int].view() == Map::<u64, V>::empty());
            }
        }
        assert forall|i: InputIndex| #[trigger] self.indices(i) == old(self).indices(i) by {
            if (i.0 as int) < self.inputs@.len() && (i.0 as int) >= old(self).inputs@.len() {
                assert(self.inputs@[i.0 as int].indices() == Map::<u64, KeyIndex>::empty());
            }
        }
        assert forall|i: InputIndex| #[trigger] self.minted(i) == old(self).minted(i) by {
            if (i.0 as int) < self.inputs@.len() && (i.0 as int) >= old(self).inputs@.len() {
                assert(self.inputs@[i.0 as int].minted() == 0);
            }
        }
    }

    /// Sets `key` of input kind `input` to `value`, moves to the next revision and stamps the
    /// cell with it. A key seen for the first time gets the next key index of its table.
    pub fn set_input(&mut self, input: InputIndex, key: u64, value: V)
        requires
            old(self).wf(),
            old(self).current() < u64::MAX,
            old(self).indices(input).contains_key(key) || old(self).minted(input) < u32::MAX,
        ensures
            final(self).wf(),
            final(self).current() == old(self).current() + 1,
            final(self).mutated_from(old(self)),
            final(self).input(input) == old(self).input(input).insert(key, value),
            final(self).indices(input).contains_key(key),
            final(self).indices(input) == old(self).indices(input).insert(
                key,
                final(self).indices(input)[key],
            ),
            old(self).indices(input).contains_key(key) ==> final(self).indices(input)[key]
                == old(self).indices(input)[key] && final(self).minted(input) == old(self).minted(input),
            !old(self).indices(input).contains_key(key) ==> final(self).indices(input)[key].0
                == old(self).minted(input) && final(self).minted(input) == old(self).minted(input) + 1,
            final(self).stamp(input, final(self).indices(input)[key]) == final(self).current(),
            forall|i: InputIndex, k: KeyIndex|
                !(i == input && k == final(self).indices(input)[key]) ==> #[trigger] final(self).stamp(i, k) == old(self).stamp(i, k),
            forall|i: InputIndex| i != input ==> #[trigger] final(self).input(i) == old(self).input(i),
            forall|i: InputIndex| i != input ==> #[trigger] final(self).indices(i) == old(self).indices(i),
            forall|i: InputIndex| i != input ==> #[trigger] final(self).minted(i) == old(self).minted(i),
    {
        self.ensure_table(input);
        let slot = input.0 as usize;
        let ghost before = *self;
        assert(self.inputs@[slot as int].indices() == self.indices(input));
        assert(self.inputs@[slot as int].minted() == self.minted(input));
        assert(self.input(input) == old(self).input(input));
        assert(self.inputs@[slot as int].view() == old(self).input(input));
        let key_index = self.inputs[slot].set(key, value);
        self.rev.increment();
        let rev = self.rev;
        fx_insert(&mut self.input_revs, cell_key(input, key_index), rev);
        proof {
            assert forall|j: int| 0 <= j < self.inputs@.len() implies (#[trigger] self.inputs@[j]).wf() by {
                if j != slot as int {
                    assert(self.inputs@[j] == before.inputs@[j]);
                }
            }
            assert forall|i: InputIndex, k: KeyIndex|
                !(i == input && k == key_index) implies #[trigger] self.stamp(i, k) == old(self).stamp(i, k) by {
                if cell_code(i, k) == cell_code(input, key_index) {
                    lemma_cell_code_injective(i, k, input, key_index);
                }
            }
            assert forall|i: InputIndex| i != input implies #[trigger] self.input(i) == old(self).input(i) by {
                assert(before.input(i) == old(self).input(i));
                if (i.0 as int) < self.inputs@.len() {
                    assert(self.inputs@[i.0 as int] == before.inputs@[i.0 as int]);
                }
            }
            assert forall|i: InputIndex| i != input implies #[trigger] self.indices(i) == old(self).indices(i) by {
                assert(before.indices(i) == old(self).indices(i));
                if (i.0 as int) < self.inputs@.len() {
                    assert(self.inputs@[i.0 as int] == before.inputs@[i.0 as int]);
                }
            }
            assert forall|i: InputIndex| i != input implies #[trigger] self.minted(i) == old(self).minted(i) by {
                assert(before.minted(i) == old(self).minted(i));
                if (i.0 as int) < self.inputs@.len() {
                    assert(self.inputs@[i.0 as int] == before.inputs@[i.0 as int]);
                }
            }
        }
    }

    /// Takes `key` out of input kind `input`. When it was present, moves to the next revision
    /// and stamps the removed cell with it; otherwise nothing changes.
    pub fn remove_input(&mut self, input: InputIndex, key: &u64)
        requires
            old(self).wf(),
            old(self).input(input).contains_key(*key) ==> old(self).current() < u64::MAX,
        ensures
            final(self).wf(),
            final(self).input(input) == old(self).input(input).remove(*key),
            final(self).indices(input) == old(self).indices(input).remove(*key),
            final(self).minted(input) == old(self).minted(input),
            forall|i: InputIndex| i != input ==> #[trigger] final(self).input(i) == old(self).input(i),
            forall|i: InputIndex| i != input ==> #[trigger] final(self).indices(i) == old(self).indices(i),
            forall|i: InputIndex| i != input ==> #[trigger] final(self).minted(i) == old(self).minted(i),
            old(self).input(input).contains_key(*key) ==> {
                &&& final(self).current() == old(self).current() + 1
                &&& final(self).mutated_from(old(self))
                &&& final(self).stamp(input, old(self).indices(input)[*key]) == final(self).current()
                &&& forall|i: InputIndex, k: KeyIndex|
                    !(i == input && k == old(self).indices(input)[*key]) ==> #[trigger] final(self).stamp(i, k) == old(self).stamp(i, k)
            },
            !old(self).input(input).contains_key(*key) ==> {
                &&& final(self).current() == old(self).current()
                &&& forall|i: InputIndex, k: KeyIndex| #[trigger]
                    final(self).stamp(i, k) == old(self).stamp(i, k)
            },
    {
        let slot = input.0 as usize;
        if slot >= self.inputs.len() {
            return;
        }
        let removed = self.inputs[slot].remove(key);
        proof {
            assert forall|j: int| 0 <= j < self.inputs@.len() implies (#[trigger] self.inputs@[j]).wf() by {
                if j != slot as int {
                    assert(self.inputs@[j] == old(self).inputs@[j]);
                }
            }
            assert forall|i: InputIndex| i != input implies #[trigger] self.input(i) == old(self).input(i) by {
                if (i.0 as int) < self.inputs@.len() {
                    assert(self.inputs@[i.0 as int] == old(self).inputs@[i.0 as int]);
                }
            }
            assert forall|i: InputIndex| i != input implies #[trigger] self.indices(i) == old(self).indices(i) by {
                if (i.0 as int) < self.inputs@.len() {
                    assert(self.inputs@[i.0 as int] == old(self).inputs@[i.0 as int]);
                }
            }
            assert forall|i: InputIndex| i != input implies #[trigger] self.minted(i) == old(self).minted(i) by {
                if (i.0 as int) < self.inputs@.len() {
                    assert(self.inputs@[i.0 as int] == old(self).inputs@[i.0 as int]);
                }
            }
        }
        match removed {
            Some((_, key_index)) => {
                self.rev.increment();
                let rev = self.rev;
                fx_insert(&mut self.input_revs, cell_key(input, key_index), rev);
                proof {
                    assert forall|i: InputIndex, k: KeyIndex|
                        !(i == input && k == key_index) implies #[trigger] self.stamp(i, k) == old(self).stamp(i, k) by {
                        if cell_code(i, k) == cell_code(input, key_index) {
                            lemma_cell_code_injective(i, k, input, key_index);
                        }
                    }
                }
            },
            None => {},
        }
    }

    /// The revision at which cell (`input`, `key_index`) was last written.
    fn stamp_of(&self, input: InputIndex, key_index: KeyIndex) -> (r: Revision)
        requires
            self.wf(),
        ensures
            r.wf(),
            r.value() == self.stamp(input, key_index),
    {
        match fx_get(&self.input_revs, cell_key(input, key_index)) {
            Some(rev) => *rev,
            None => Revision::new(),
        }
    }

    /// The greatest revision at which any cell of `dependencies` was written, or the first
    /// revision when there are none.
    pub fn last_rev_of(&self, dependencies: &[(InputIndex, KeyIndex)]) -> (r: Revision)
        requires
            self.wf(),
        ensures
            r.wf(),
            r.value() == max_stamp(self.stamps(), dependencies@),
    {
        let mut best = Revision::new();
        let mut j: usize = 0;
        while j < dependencies.len()
            invariant
                self.wf(),
                j <= dependencies@.len(),
                best.wf(),
                best.value() == max_stamp(self.stamps(), dependencies@.subrange(0, j as int)),
            decreases dependencies@.len() - j,
        {
            let (input, key_index) = dependencies[j];
            let stamp = self.stamp_of(input, key_index);
            proof {
                let next = dependencies@.subrange(0, j as int + 1);
                assert(next.drop_last() =~= dependencies@.subrange(0, j as int));
                assert(next.last() == dependencies@[j as int]);
            }
            if stamp.as_raw() > best.as_raw() {
                best = stamp;
            }
            j = j + 1;
        }
        assert(dependencies@.subrange(0, j as int) =~= dependencies@);
        best
    }
}

impl<V: Clone> Default for Runtime<V> {
    fn default() -> (r: Self)
        ensures
            r.wf(),
            r.current() == START,
            forall|i: InputIndex| #[trigger] r.input(i) == Map::<u64, V>::empty(),
            forall|i: InputIndex| #[trigger] r.indices(i) == Map::<u64, KeyIndex>::empty(),
            forall|i: InputIndex| #[trigger] r.minted(i) == 0,
            forall|i: InputIndex, k: KeyIndex| #[trigger] r.stamp(i, k) == START,
    {
        Self::new()
    }
}

/// Of two successive successful mutations, the second ends at a greater revision than the
/// first: `r1` follows a mutation of `r0`, `r3` one of `r2`, and nothing between `r1` and `r2`
/// moved the revision back.
pub proof fn lemma_revision_monotonicity<V: Clone>(r0: &Runtime<V>, r1: &Runtime<V>, r2: &Runtime<V>, r3: &Runtime<V>)
    requires
        r1.mutated_from(r0),
        r3.mutated_from(r2),
        r1.current() <= r2.current(),
    ensures
        r0.current() < r1.current() < r3.current(),
{
}

} // verus!
