use rustc_hash::FxHashMap;
use std::any::TypeId;
use std::sync::Arc;
use vstd::prelude::*;

use crate::fxmap::{fx_get, fx_insert};
use crate::input::{InputIndex, KeyIndex};
use crate::query_stack::{last_index_of, Cycle, QueryStack};
use crate::revision::Revision;
use vstd::std_specs::convert::FromSpec;
use crate::runtime::{lemma_max_stamp_bound, max_stamp, Runtime};
use crate::revision::START;

verus! {

/// std's identifier of a type; opaque here.
#[verifier::external_type_specification]
#[verifier::external_body]
pub struct ExTypeId(TypeId);

/// Relies on `std::any::TypeId::of`: the identifier of type `Q`.
#[verifier::external_body]
fn type_id_of<Q: ?Sized + 'static>() -> (r: TypeId) {
    TypeId::of::<Q>()
}

/// Relies on `TypeId`'s `==`: two identifiers are equal exactly when they are the same value.
#[verifier::external_body]
fn same_type_id(a: &TypeId, b: &TypeId) -> (r: bool)
    ensures
        r == (*a == *b),
{
    *a == *b
}

/// The runtime identity of one (query type, parameter) pair.
#[derive(Debug, Clone, Copy, PartialEq, Eq, Structural, PartialOrd, Ord, Hash)]
pub struct QueryId(pub u32);

/// The identity of a query function, with a readable name for diagnostics.
#[derive(Debug, Clone, Copy)]
pub struct QueryType {
    type_id: TypeId,
    name: &'static str,
}

impl QueryType {
    /// What identifies the query function; the name plays no part in it.
    pub closed spec fn ident(&self) -> TypeId {
        self.type_id
    }

    /// The readable name.
    pub closed spec fn name_view(&self) -> Seq<char> {
        self.name@
    }

    /// The query type of function type `Q`, shown as `name` in diagnostics.
    pub fn of<Q: 'static>(name: &'static str) -> (r: Self)
        ensures
            r.name_view() == name@,
    {
        QueryType { type_id: type_id_of::<Q>(), name }
    }

    pub fn name(&self) -> (r: &str)
        ensures
            r@ == self.name_view(),
    {
        self.name
    }

    /// Whether `self` and `other` identify the same query function.
    pub fn same_as(&self, other: &QueryType) -> (r: bool)
        ensures
            r == (self.ident() == other.ident()),
    {
        same_type_id(&self.type_id, &other.type_id)
    }
}

/// The topmost slot of `types` whose query type is `t`, or -1 when there is none.
pub open spec fn slot_of(types: Seq<QueryType>, t: TypeId) -> int
    decreases types.len(),
{
    if types.len() == 0 {
        -1
    } else if types.last().ident() == t {
        types.len() - 1
    } else {
        slot_of(types.drop_last(), t)
    }
}

proof fn lemma_slot_of(types: Seq<QueryType>, t: TypeId)
    ensures
        -1 <= slot_of(types, t) < types.len(),
        slot_of(types, t) >= 0 ==> types[slot_of(types, t)].ident() == t,
        forall|j: int| slot_of(types, t) < j < types.len() ==> types[j].ident() != t,
    decreases types.len(),
{
    if types.len() > 0 {
        lemma_slot_of(types.drop_last(), t);
        if types.last().ident() != t {
            assert forall|j: int| slot_of(types, t) < j < types.len() implies types[j].ident() != t by {
                if j < types.len() - 1 {
                    assert(types[j] == types.drop_last()[j]);
                }
            }
        }
    }
}

proof fn lemma_slot_of_push(types: Seq<QueryType>, x: QueryType, t: TypeId)
    ensures
        slot_of(types.push(x), t) == if x.ident() == t {
            types.len() as int
        } else {
            slot_of(types, t)
        },
{
    assert(types.push(x).drop_last() =~= types);
}

/// The dependencies recorded while one query executes.
pub struct QueryContext {
    dependencies: Vec<(InputIndex, KeyIndex)>,
}

impl QueryContext {
    /// The cells read so far, each once.
    pub closed spec fn dependencies(&self) -> Seq<(InputIndex, KeyIndex)> {
        self.dependencies@
    }

    pub fn new() -> (r: Self)
        ensures
            r.dependencies() == Seq::<(InputIndex, KeyIndex)>::empty(),
    {
        QueryContext { dependencies: Vec::new() }
    }

    /// Reads `key` of input kind `input` (a clone) and, when it is present, records its cell as
    /// a dependency. An absent key records nothing.
    pub fn use_input<V: Clone>(&mut self, runtime: &Runtime<V>, input: InputIndex, key: &u64) -> (r: Option<V>)
        requires
            runtime.wf(),
            old(self).dependencies().no_duplicates(),
        ensures
            final(self).dependencies().no_duplicates(),
            match r {
                Some(v) => {
                    &&& runtime.input(input).contains_key(*key)
                    &&& cloned(runtime.input(input)[*key], v)
                    &&& final(self).dependencies().to_set() == old(self).dependencies().to_set().insert(
                        (input, runtime.indices(input)[*key]),
                    )
                },
                None => {
                    &&& !runtime.input(input).contains_key(*key)
                    &&& final(self).dependencies() == old(self).dependencies()
                },
            },
    {
        match runtime.lookup(input, key) {
            Some((value, key_index)) => {
                let cell = (input, key_index);
                let mut j: usize = 0;
                let mut seen = false;
                while j < self.dependencies.len()
                    invariant
                        j <= self.dependencies@.len(),
                        self.dependencies@ == old(self).dependencies@,
                        seen == exists|m: int| 0 <= m < j && self.dependencies@[m] == cell,
                    decreases self.dependencies@.len() - j,
                {
                    let d = self.dependencies[j];
                    if d.0 == cell.0 && d.1 == cell.1 {
                        seen = true;
                    }
                    j = j + 1;
                }
                if !seen {
                    self.dependencies.push(cell);
                    proof {
                        assert(self.dependencies@.to_set() =~= old(self).dependencies@.to_set().insert(cell)) by {
                            assert forall|x| self.dependencies@.to_set().contains(x) implies
                                old(self).dependencies@.to_set().insert(cell).contains(x) by {
                                let m = choose|m: int| 0 <= m < self.dependencies@.len() && self.dependencies@[m] == x;
                                if m < old(self).dependencies@.len() {
                                    assert(old(self).dependencies@[m] == x);
                                }
                            }
                            assert forall|x| old(self).dependencies@.to_set().insert(cell).contains(x) implies
                                self.dependencies@.to_set().contains(x) by {
                                if x == cell {
                                    assert(self.dependencies@[self.dependencies@.len() - 1] == x);
                                } else {
                                    let m = choose|m: int| 0 <= m < old(self).dependencies@.len() && old(self).dependencies@[m] == x;
                                    assert(self.dependencies@[m] == x);
                                }
                            }
                        }
                    }
                } else {
                    proof {
                        let m = choose|m: int| 0 <= m < j && self.dependencies@[m] == cell;
                        assert(self.dependencies@.to_set() =~= old(self).dependencies@.to_set().insert(cell)) by {
                            assert(self.dependencies@.to_set().contains(cell));
                        }
                    }
                }
                Some(value)
            },
            None => None,
        }
    }

    /// The recorded dependencies.
    pub fn into_dependencies(self) -> (r: Vec<(InputIndex, KeyIndex)>)
        ensures
            r@ == self.dependencies(),
    {
        self.dependencies
    }
}

/// The entry of one completed query.
struct QueryData<O> {
    output: Arc<O>,
    valid_at: Revision,
    dependencies: Vec<(InputIndex, KeyIndex)>,
}

/// A query that has been entered on a query stack and is executing.
pub struct ActiveQuery {
    query_id: QueryId,
    pop_at: usize,
}

impl ActiveQuery {
    /// The executing query.
    pub closed spec fn id(&self) -> QueryId {
        self.query_id
    }

    /// The stack depth at which it stands.
    pub closed spec fn depth(&self) -> nat {
        self.pop_at as nat
    }

    pub fn query_id(&self) -> (r: QueryId)
        ensures
            r == self.id(),
    {
        self.query_id
    }

    /// The stack depth at which it stands.
    pub fn pop_at(&self) -> (r: usize)
        ensures
            r == self.depth(),
    {
        self.pop_at
    }
}

/// The memo table: one query id per (query type, parameter) pair, and one entry per query id
/// whose query has completed.
pub struct QueryCache<O> {
    types: Vec<QueryType>,
    id_maps: Vec<FxHashMap<u64, QueryId>>,
    owners: Vec<(usize, u64)>,
    query_map: FxHashMap<u64, QueryData<O>>,
}

impl<O> QueryCache<O> {
    /// The query id of (`t`, `p`), if one has been minted.
    pub closed spec fn id_of(&self, t: QueryType, p: u64) -> Option<QueryId> {
        let s = slot_of(self.types@, t.ident());
        if s >= 0 && self.id_maps@[s]@.contains_key(p) {
            Some(self.id_maps@[s]@[p])
        } else {
            None
        }
    }

    /// How many query ids have been minted; the next one is this number.
    pub closed spec fn minted(&self) -> nat {
        self.owners@.len()
    }

    /// The id that (`t`, `p`) has, or will get when it is first started.
    pub open spec fn id_for(&self, t: QueryType, p: u64) -> QueryId {
        match self.id_of(t, p) {
            Some(id) => id,
            None => QueryId(self.minted() as u32),
        }
    }

    /// The completed entry of `id`: its output, the revision it is valid at, and the cells it read.
    pub closed spec fn entry(&self, id: QueryId) -> Option<(Arc<O>, nat, Seq<(InputIndex, KeyIndex)>)> {
        if self.query_map@.contains_key(id.0 as u64) {
            let d = self.query_map@[id.0 as u64];
            Some((d.output, d.valid_at.value(), d.dependencies@))
        } else {
            None
        }
    }

    /// An entry's revision is a revision.
    pub proof fn lemma_entry_valid_at(&self, id: QueryId)
        requires
            self.wf(),
            self.entry(id).is_some(),
        ensures
            self.entry(id).unwrap().1 >= START,
    {
    }

    /// The readable name and the parameter of the query that `id` was minted for.
    pub closed spec fn owner(&self, id: QueryId) -> (Seq<char>, u64) {
        (self.types@[self.owners@[id.0 as int].0 as int].name_view(), self.owners@[id.0 as int].1)
    }

    /// Whether the query type of `t` has been seen.
    pub closed spec fn has_type(&self, t: QueryType) -> bool {
        slot_of(self.types@, t.ident()) >= 0
    }

    /// The name under which the query type of `t` was first seen.
    pub closed spec fn registered_name(&self, t: QueryType) -> Seq<char> {
        self.types@[slot_of(self.types@, t.ident())].name_view()
    }

    /// Ids are minted in order, each for one (query type, parameter) pair, and entries exist only
    /// for minted ids.
    pub closed spec fn wf(&self) -> bool {
        &&& self.types@.len() == self.id_maps@.len()
        &&& self.types@.len() <= usize::MAX
        &&& self.owners@.len() <= 0x1_0000_0000
        &&& forall|s: int, p: u64|
            0 <= s < self.id_maps@.len() && #[trigger] self.id_maps@[s]@.contains_key(p) ==> {
                let id = self.id_maps@[s]@[p];
                &&& (id.0 as int) < self.owners@.len()
                &&& self.owners@[id.0 as int] == (s as usize, p)
            }
        &&& forall|i: int| 0 <= i < self.owners@.len() ==> {
                let (s, p) = #[trigger] self.owners@[i];
                &&& (s as int) < self.types@.len()
                &&& self.id_maps@[s as int]@.contains_key(p)
                &&& self.id_maps@[s as int]@[p] == QueryId(i as u32)
            }
        &&& forall|k: u64| #[trigger] self.query_map@.contains_key(k) ==> {
                &&& (k as int) < self.owners@.len()
                &&& self.query_map@[k].valid_at.wf()
            }
    }

    /// A minted id has an owner.
    pub proof fn lemma_id_minted(&self, t: QueryType, p: u64)
        requires
            self.wf(),
            self.id_of(t, p).is_some(),
        ensures
            (self.id_of(t, p).unwrap().0 as int) < self.minted(),
            self.owner(self.id_of(t, p).unwrap()) == (self.registered_name(t), p),
            self.has_type(t),
    {
        lemma_slot_of(self.types@, t.ident());
        let s = slot_of(self.types@, t.ident());
        assert(self.id_maps@[s]@.contains_key(p));
        let id = self.id_maps@[s]@[p];
        assert(self.owners@[id.0 as int] == (s as usize, p));
    }

    pub fn new() -> (r: Self)
        ensures
            r.wf(),
            r.minted() == 0,
            forall|t: QueryType, p: u64| #[trigger] r.id_of(t, p) == None::<QueryId>,
            forall|id: QueryId| #[trigger] r.entry(id) == None::<(Arc<O>, nat, Seq<(InputIndex, KeyIndex)>)>,
    {
        QueryCache { types: Vec::new(), id_maps: Vec::new(), owners: Vec::new(), query_map: FxHashMap::default() }
    }

    fn find_slot(&self, query_type: &QueryType) -> (r: Option<usize>)
        requires
            self.wf(),
        ensures
            match r {
                Some(s) => s as int == slot_of(self.types@, query_type.ident()) && (s as int) < self.types@.len(),
                None => slot_of(self.types@, query_type.ident()) == -1,
            },
    {
        proof {
            lemma_slot_of(self.types@, query_type.ident());
        }
        let mut i: usize = self.types.len();
        while i > 0
            invariant
                i <= self.types@.len(),
                forall|j: int| i <= j < self.types@.len() ==> self.types@[j].ident() != query_type.ident(),
                -1 <= slot_of(self.types@, query_type.ident()) < self.types@.len(),
                slot_of(self.types@, query_type.ident()) >= 0 ==> self.types@[slot_of(self.types@, query_type.ident())].ident() == query_type.ident(),
                forall|j: int| slot_of(self.types@, query_type.ident()) < j < self.types@.len() ==> self.types@[j].ident() != query_type.ident(),
            decreases i,
        {
            if self.types[i - 1].same_as(query_type) {
                return Some(i - 1);
            }
            i = i - 1;
        }
        None
    }

    /// How many query ids have been minted.
    pub fn minted_count(&self) -> (r: usize)
        ensures
            r == self.minted(),
    {
        self.owners.len()
    }

    /// The query id of (`query_type`, `param`), if one has been minted.
    pub fn id(&self, query_type: &QueryType, param: &u64) -> (r: Option<QueryId>)
        requires
            self.wf(),
        ensures
            r == self.id_of(*query_type, *param),
    {
        match self.find_slot(query_type) {
            Some(s) => match fx_get(&self.id_maps[s], *param) {
                Some(id) => Some(*id),
                None => None,
            },
            None => None,
        }
    }

    /// Every pair that had an id in `prev` still has the same id in `self`.
    pub open spec fn keeps_ids(&self, prev: &Self) -> bool {
        forall|t: QueryType, p: u64| #[trigger] prev.id_of(t, p).is_some() ==> self.id_of(t, p) == prev.id_of(t, p)
    }

    /// Every query type known to `prev` keeps its name, and every id minted in `prev` keeps its
    /// owner.
    pub open spec fn keeps_names(&self, prev: &Self) -> bool {
        &&& prev.minted() <= self.minted()
        &&& forall|t: QueryType| #[trigger] prev.has_type(t) ==> self.has_type(t) && self.registered_name(t) == prev.registered_name(t)
        &&& forall|id: QueryId| (id.0 as int) < prev.minted() ==> #[trigger] self.owner(id) == prev.owner(id)
    }

    /// The output stored for (`t`, `p`) when its entry is still valid against `runtime`: no cell
    /// that the entry read was written after the entry's revision.
    pub open spec fn fresh_output<V: Clone>(&self, t: QueryType, p: u64, runtime: &Runtime<V>) -> Option<Arc<O>> {
        match self.id_of(t, p) {
            Some(id) => match self.entry(id) {
                Some(e) => if max_stamp(runtime.stamps(), e.2) <= e.1 {
                    Some(e.0)
                } else {
                    None
                },
                None => None,
            },
            None => None,
        }
    }

    /// The cached output of (`query_type`, `param`), if it has an entry that is still valid.
    pub fn cached<V: Clone>(&self, query_type: &QueryType, param: &u64, runtime: &Runtime<V>) -> (r: Option<Arc<O>>)
        requires
            self.wf(),
            runtime.wf(),
        ensures
            r == self.fresh_output(*query_type, *param, runtime),
    {
        let id = match self.id(query_type, param) {
            Some(id) => id,
            None => return None,
        };
        match fx_get(&self.query_map, id.0 as u64) {
            Some(data) => {
                let last = runtime.last_rev_of(data.dependencies.as_slice());
                if last.as_raw() <= data.valid_at.as_raw() {
                    Some(Arc::clone(&data.output))
                } else {
                    None
                }
            },
            None => None,
        }
    }

    /// Gives (`query_type`, `param`) its query id (minting one the first time the pair is seen)
    /// and enters that id on `stack`. When the id is already active there, the
    /// cycle is returned and the stack is left as it was.
    pub fn start<V: Clone>(&mut self, runtime: &Runtime<V>, stack: &mut QueryStack, query_type: &QueryType, param: u64) -> (r: Result<ActiveQuery, Cycle>)
        requires
            old(self).wf(),
            runtime.wf(),
            old(self).id_of(*query_type, param).is_some() || old(self).minted() < u32::MAX,
        ensures
            final(self).wf(),
            final(self).keeps_ids(old(self)),
            final(self).keeps_names(old(self)),
            final(self).id_of(*query_type, param) == Some(old(self).id_for(*query_type, param)),
            forall|t: QueryType, p: u64|
                !(t.ident() == query_type.ident() && p == param) ==> #[trigger] final(self).id_of(t, p) == old(self).id_of(t, p),
            old(self).id_of(*query_type, param).is_none() ==> final(self).minted() == old(self).minted() + 1,
            old(self).id_of(*query_type, param).is_some() ==> final(self).minted() == old(self).minted(),
            forall|id: QueryId| #[trigger] final(self).entry(id) == old(self).entry(id),
            forall|id: QueryId| (id.0 as int) < old(self).minted() ==> #[trigger] final(self).owner(id) == old(self).owner(id),
            final(self).has_type(*query_type),
            !old(self).has_type(*query_type) ==> final(self).registered_name(*query_type) == query_type.name_view(),
            match r {
                Ok(a) => {
                    &&& a.id() == old(self).id_for(*query_type, param)
                    &&& !old(stack).view().contains(a.id())
                    &&& final(stack).view() == old(stack).view().push(a.id())
                    &&& a.depth() == final(stack).view().len()
                },
                Err(c) => {
                    let id = old(self).id_for(*query_type, param);
                    &&& old(stack).view().contains(id)
                    &&& final(stack).view() == old(stack).view()
                    &&& c.view() == old(stack).view().subrange(
                        last_index_of(old(stack).view(), id),
                        old(stack).view().len() as int,
                    ).push(id)
                },
            },
    {
        let slot = match self.find_slot(query_type) {
            Some(s) => {
                assert(self.types@ == old(self).types@);
                s
            },
            None => {
                self.types.push(*query_type);
                self.id_maps.push(FxHashMap::default());
                proof {
                    assert forall|t: QueryType, p: u64| #[trigger] self.id_of(t, p) == old(self).id_of(t, p) by {
                        lemma_slot_of_push(old(self).types@, *query_type, t.ident());
                        lemma_slot_of(self.types@, t.ident());
                        lemma_slot_of(old(self).types@, t.ident());
                        let s = slot_of(self.types@, t.ident());
                        if s >= 0 && s < old(self).types@.len() {
                            assert(self.id_maps@[s] == old(self).id_maps@[s]);
                        } else if s >= 0 {
                            assert(s == old(self).types@.len());
                            assert(!self.id_maps@[s]@.dom().contains(p));
                            assert(slot_of(old(self).types@, t.ident()) == -1);
                        }
                    }
                    assert forall|s: int, p: u64|
                        0 <= s < self.id_maps@.len() && #[trigger] self.id_maps@[s]@.contains_key(p) implies {
                            let id = self.id_maps@[s]@[p];
                            &&& (id.0 as int) < self.owners@.len()
                            &&& self.owners@[id.0 as int] == (s as usize, p)
                        } by {
                        assert(s < old(self).id_maps@.len());
                        assert(self.id_maps@[s] == old(self).id_maps@[s]);
                    }
                    assert forall|i: int| 0 <= i < self.owners@.len() implies {
                        let (s, p) = #[trigger] self.owners@[i];
                        &&& (s as int) < self.types@.len()
                        &&& self.id_maps@[s as int]@.contains_key(p)
                        &&& self.id_maps@[s as int]@[p] == QueryId(i as u32)
                    } by {
                        let (s, p) = self.owners@[i];
                        assert(self.id_maps@[s as int] == old(self).id_maps@[s as int]);
                    }
                    lemma_slot_of_push(old(self).types@, *query_type, query_type.ident());
                    assert forall|t: QueryType| #[trigger] old(self).has_type(t) implies self.has_type(t)
                        && self.registered_name(t) == old(self).registered_name(t) by {
                        lemma_slot_of_push(old(self).types@, *query_type, t.ident());
                        lemma_slot_of(old(self).types@, t.ident());
                    }
                }
                self.types.len() - 1
            },
        };
        let ghost mid = *self;
        assert forall|t: QueryType| #[trigger] old(self).has_type(t) implies mid.has_type(t)
            && mid.registered_name(t) == old(self).registered_name(t) by {
            if mid.types@ == old(self).types@ {
            }
        }
        assert(slot as int == slot_of(self.types@, query_type.ident()));
        let query_id = match fx_get(&self.id_maps[slot], param) {
            Some(id) => *id,
            None => {
                let id = QueryId(self.owners.len() as u32);
                self.owners.push((slot, param));
                fx_insert(&mut self.id_maps[slot], param, id);
                proof {
                    assert forall|s: int, p: u64|
                        0 <= s < self.id_maps@.len() && #[trigger] self.id_maps@[s]@.contains_key(p) implies {
                            let id = self.id_maps@[s]@[p];
                            &&& (id.0 as int) < self.owners@.len()
                            &&& self.owners@[id.0 as int] == (s as usize, p)
                        } by {
                        if !(s == slot as int && p == param) {
                            assert(mid.id_maps@[s]@.contains_key(p));
                        }
                    }
                    assert forall|i: int| 0 <= i < self.owners@.len() implies {
                        let (s, p) = #[trigger] self.owners@[i];
                        &&& (s as int) < self.types@.len()
                        &&& self.id_maps@[s as int]@.contains_key(p)
                        &&& self.id_maps@[s as int]@[p] == QueryId(i as u32)
                    } by {
                        if i < mid.owners@.len() {
                            let (s, p) = mid.owners@[i];
                            assert(mid.owners@[i] == self.owners@[i]);
                            assert(mid.id_maps@[s as int]@.contains_key(p));
                        }
                    }
                    assert forall|t: QueryType, p: u64|
                        !(t.ident() == query_type.ident() && p == param) implies #[trigger] self.id_of(t, p) == mid.id_of(t, p) by {
                        lemma_slot_of(self.types@, t.ident());
                        lemma_slot_of(self.types@, query_type.ident());
                    }
                }
                id
            },
        };
        proof {
            lemma_slot_of(self.types@, query_type.ident());
            assert(self.id_of(*query_type, param) == Some(query_id));
            assert(self.types@ == mid.types@);
            assert forall|t: QueryType| #[trigger] old(self).has_type(t) implies self.has_type(t)
                && self.registered_name(t) == old(self).registered_name(t) by {
                assert(mid.has_type(t));
            }
        }
        match stack.push(query_id) {
            Ok(pop_at) => Ok(ActiveQuery { query_id, pop_at }),
            Err(c) => Err(c),
        }
    }
    /// Completes `active`: leaves it on `stack` and stores `output` as its entry, valid
    /// at the current revision, with the cells that `ctx` recorded.
    pub fn finish<V: Clone>(&mut self, runtime: &Runtime<V>, stack: &mut QueryStack, active: ActiveQuery, ctx: QueryContext, output: O) -> (r: Arc<O>)
        requires
            old(self).wf(),
            runtime.wf(),
            old(stack).view().len() == active.depth(),
            active.depth() > 0,
            (active.id().0 as int) < old(self).minted(),
        ensures
            final(self).wf(),
            final(self).keeps_ids(old(self)),
            final(self).keeps_names(old(self)),
            final(stack).view() == old(stack).view().drop_last(),
            *r == output,
            final(self).entry(active.id()) == Some((r, runtime.current(), ctx.dependencies())),
            forall|id: QueryId| id != active.id() ==> #[trigger] final(self).entry(id) == old(self).entry(id),
            forall|t: QueryType, p: u64| #[trigger] final(self).id_of(t, p) == old(self).id_of(t, p),
            final(self).minted() == old(self).minted(),
            forall|id: QueryId| #[trigger] final(self).owner(id) == old(self).owner(id),
    {
        let valid_at = runtime.rev();
        let dependencies = ctx.into_dependencies();
        stack.pop(active.pop_at);
        let output = Arc::new(output);
        let query_id = active.query_id;
        fx_insert(&mut self.query_map, query_id.0 as u64, QueryData { output: Arc::clone(&output), valid_at, dependencies });
        proof {
            assert forall|id: QueryId| id != active.id() implies #[trigger] self.entry(id) == old(self).entry(id) by {
                assert(id.0 as u64 != query_id.0 as u64);
            }
        }
        output
    }

    /// Leaves `active` on `stack` without storing anything, for a query that failed.
    pub fn abandon<V: Clone>(&self, runtime: &Runtime<V>, stack: &mut QueryStack, active: ActiveQuery)
        requires
            old(stack).view().len() == active.depth(),
            active.depth() > 0,
        ensures
            final(stack).view() == old(stack).view().drop_last(),
    {
        stack.pop(active.pop_at);
    }

    /// Runs the query (`query_type`, `param`) with body `f` and stores its output. `f` gets the
    /// parameter, the runtime and a fresh context, and hands the context back with its result.
    /// When the query is already active on `stack`, `f` is not run and the cycle is returned as
    /// an `E`; when `f` fails, nothing is stored and its error is returned.
    pub fn try_insert_with<V: Clone, E: From<Cycle>, F>(
        &mut self,
        runtime: &Runtime<V>, stack: &mut QueryStack,
        query_type: &QueryType,
        param: u64,
        f: F,
    ) -> (r: Result<Arc<O>, E>) where
        F: FnOnce(&u64, &Runtime<V>, QueryContext) -> (QueryContext, Result<O, E>),

        requires
            old(self).wf(),
            runtime.wf(),
            old(self).id_of(*query_type, param).is_some() || old(self).minted() < u32::MAX,
            forall|c: QueryContext|
                c.dependencies() == Seq::<(InputIndex, KeyIndex)>::empty() ==> #[trigger] f.requires((&param, runtime, c)),
        ensures
            final(self).wf(),
            final(self).keeps_ids(old(self)),
            final(self).keeps_names(old(self)),
            final(stack).view() == old(stack).view(),
            final(self).id_of(*query_type, param) == Some(old(self).id_for(*query_type, param)),
            forall|t: QueryType, p: u64|
                !(t.ident() == query_type.ident() && p == param) ==> #[trigger] final(self).id_of(t, p) == old(self).id_of(t, p),
            old(stack).view().contains(old(self).id_for(*query_type, param)) ==> {
                let id = old(self).id_for(*query_type, param);
                &&& r matches Err(e) && exists|c: Cycle|
                    c.view() == old(stack).view().subrange(
                        last_index_of(old(stack).view(), id),
                        old(stack).view().len() as int,
                    ).push(id) && (E::obeys_from_spec() ==> e == E::from_spec(c))
                &&& forall|id: QueryId| #[trigger] final(self).entry(id) == old(self).entry(id)
            },
            !old(stack).view().contains(old(self).id_for(*query_type, param)) ==> exists|
                c0: QueryContext,
                c: QueryContext,
                res: Result<O, E>,
            |
                {
                    &&& c0.dependencies() == Seq::<(InputIndex, KeyIndex)>::empty()
                    &&& #[trigger] f.ensures((&param, runtime, c0), (c, res))
                    &&& match res {
                        Ok(o) => r matches Ok(out) && *out == o && final(self).entry(
                            old(self).id_for(*query_type, param),
                        ) == Some((out, runtime.current(), c.dependencies()))
                            && forall|id: QueryId|
                            id != old(self).id_for(*query_type, param) ==> #[trigger] final(self).entry(id)
                                == old(self).entry(id),
                        Err(e) => r == Err::<Arc<O>, E>(e) && forall|id: QueryId| #[trigger] final(self).entry(id)
                            == old(self).entry(id),
                    }
                },
    {
        match self.start(runtime, stack, query_type, param) {
            Err(cycle) => Err(E::from(cycle)),
            Ok(active) => {
                proof {
                    self.lemma_id_minted(*query_type, param);
                }
                let fresh = QueryContext::new();
                let ghost c0 = fresh;
                let (ctx, result) = f(&param, runtime, fresh);
                let ghost res = result;
                let ghost c = ctx;
                match result {
                    Ok(output) => {
                        let out = self.finish(runtime, stack, active, ctx, output);
                        assert(f.ensures((&param, runtime, c0), (c, res)));
                        Ok(out)
                    },
                    Err(e) => {
                        self.abandon(runtime, stack, active);
                        assert(f.ensures((&param, runtime, c0), (c, res)));
                        Err(e)
                    },
                }
            },
        }
    }

    /// Runs the query (`query_type`, `param`) with body `f` (as for `try_insert_with`) and stores
    /// its output. The query must not be active on `stack` already.
    pub fn insert_with<V: Clone, F>(&mut self, runtime: &Runtime<V>, stack: &mut QueryStack, query_type: &QueryType, param: u64, f: F) -> (r: Arc<O>) where
        F: FnOnce(&u64, &Runtime<V>, QueryContext) -> (QueryContext, O),

        requires
            old(self).wf(),
            runtime.wf(),
            old(self).id_of(*query_type, param).is_some() || old(self).minted() < u32::MAX,
            !old(stack).view().contains(old(self).id_for(*query_type, param)),
            forall|c: QueryContext|
                c.dependencies() == Seq::<(InputIndex, KeyIndex)>::empty() ==> #[trigger] f.requires((&param, runtime, c)),
        ensures
            final(self).wf(),
            final(self).keeps_ids(old(self)),
            final(self).keeps_names(old(self)),
            final(stack).view() == old(stack).view(),
            final(self).id_of(*query_type, param) == Some(old(self).id_for(*query_type, param)),
            forall|t: QueryType, p: u64|
                !(t.ident() == query_type.ident() && p == param) ==> #[trigger] final(self).id_of(t, p) == old(self).id_of(t, p),
            forall|id: QueryId|
                id != old(self).id_for(*query_type, param) ==> #[trigger] final(self).entry(id) == old(self).entry(id),
            exists|c0: QueryContext, c: QueryContext, o: O|
                {
                    &&& c0.dependencies() == Seq::<(InputIndex, KeyIndex)>::empty()
                    &&& #[trigger] f.ensures((&param, runtime, c0), (c, o))
                    &&& *r == o
                    &&& final(self).entry(old(self).id_for(*query_type, param)) == Some(
                        (r, runtime.current(), c.dependencies()),
                    )
                },
    {
        match self.start(runtime, stack, query_type, param) {
            // The id is not on the stack, so entering it cannot close a cycle.
            Err(_) => unreached(),
            Ok(active) => {
                proof {
                    self.lemma_id_minted(*query_type, param);
                }
                let fresh = QueryContext::new();
                let ghost c0 = fresh;
                let (ctx, output) = f(&param, runtime, fresh);
                let ghost c = ctx;
                let ghost o = output;
                let out = self.finish(runtime, stack, active, ctx, output);
                assert(f.ensures((&param, runtime, c0), (c, o)));
                out
            },
        }
    }
}

impl<O> Default for QueryCache<O> {
    fn default() -> (r: Self)
        ensures
            r.wf(),
            r.minted() == 0,
            forall|t: QueryType, p: u64| #[trigger] r.id_of(t, p) == None::<QueryId>,
            forall|id: QueryId| #[trigger] r.entry(id) == None::<(Arc<O>, nat, Seq<(InputIndex, KeyIndex)>)>,
    {
        Self::new()
    }
}

/// The decimal digit `d` as a character.
pub open spec fn digit_char(d: nat) -> char {
    if d == 0 { '0' }
    else if d == 1 { '1' }
    else if d == 2 { '2' }
    else if d == 3 { '3' }
    else if d == 4 { '4' }
    else if d == 5 { '5' }
    else if d == 6 { '6' }
    else if d == 7 { '7' }
    else if d == 8 { '8' }
    else { '9' }
}

/// `n` written in decimal, without leading zeros.
pub open spec fn decimal(n: nat) -> Seq<char>
    decreases n,
{
    if n < 10 {
        seq![digit_char(n)]
    } else {
        decimal(n / 10).push(digit_char(n % 10))
    }
}

/// How a call of query `name` on `param` is shown: `name(param)`.
pub open spec fn call_text(name: Seq<char>, param: u64) -> Seq<char> {
    name + seq!['('] + decimal(param as nat) + seq![')']
}

/// Relies on `format!` with `{}`: a `str` is written as it is, a `u64` in decimal.
#[verifier::external_body]
fn render_call(name: &str, param: u64) -> (r: String)
    ensures
        r@ == call_text(name@, param),
{
    format!("{}({})", name, param)
}

impl<O> QueryCache<O> {
    /// How the ids of `ids` are shown, in order; an id that this cache never minted is left out.
    pub closed spec fn rendered(&self, ids: Seq<QueryId>) -> Seq<Seq<char>>
        decreases ids.len(),
    {
        if ids.len() == 0 {
            Seq::empty()
        } else {
            let rest = self.rendered(ids.drop_last());
            let id = ids.last();
            if (id.0 as int) < self.minted() {
                rest.push(call_text(self.owner(id).0, self.owner(id).1))
            } else {
                rest
            }
        }
    }

    /// When every id of `ids` was minted here, each is shown as `name(param)` of its owner, in
    /// order.
    pub proof fn lemma_rendered(&self, ids: Seq<QueryId>)
        requires
            forall|j: int| 0 <= j < ids.len() ==> (#[trigger] ids[j].0 as int) < self.minted(),
        ensures
            self.rendered(ids).len() == ids.len(),
            forall|j: int|
                0 <= j < ids.len() ==> #[trigger] self.rendered(ids)[j] == call_text(
                    self.owner(ids[j]).0,
                    self.owner(ids[j]).1,
                ),
        decreases ids.len(),
    {
        if ids.len() > 0 {
            let rest = ids.drop_last();
            assert forall|j: int| 0 <= j < rest.len() implies (#[trigger] rest[j].0 as int) < self.minted() by {
                assert(rest[j] == ids[j]);
            }
            self.lemma_rendered(rest);
            assert((ids[ids.len() - 1].0 as int) < self.minted());
            assert forall|j: int| 0 <= j < ids.len() implies #[trigger] self.rendered(ids)[j] == call_text(
                self.owner(ids[j]).0,
                self.owner(ids[j]).1,
            ) by {
                if j < ids.len() - 1 {
                    assert(rest[j] == ids[j]);
                }
            }
        }
    }

    /// Pairs `cycle` with this cache, to show its queries by name and parameter.
    pub fn debug_cycle(&self, cycle: Cycle) -> (r: CycleDebug<'_, O>)
        ensures
            r.cache() == self,
            r.cycle_view() == cycle.view(),
    {
        CycleDebug { cache: self, cycle }
    }
}

/// A cycle together with the cache that minted its ids.
pub struct CycleDebug<'a, O> {
    cache: &'a QueryCache<O>,
    cycle: Cycle,
}

impl<'a, O> CycleDebug<'a, O> {
    /// The cache.
    pub closed spec fn cache(&self) -> &'a QueryCache<O> {
        self.cache
    }

    /// The ids of the cycle.
    pub closed spec fn cycle_view(&self) -> Seq<QueryId> {
        self.cycle.view()
    }

    /// Each query of the cycle as `name(param)`, in order.
    pub fn to_strings(&self) -> (r: Vec<String>)
        requires
            self.cache().wf(),
        ensures
            r@.map_values(|s: String| s@) == self.cache().rendered(self.cycle_view()),
    {
        let ids = self.cycle.cycle();
        let mut all: Vec<String> = Vec::new();
        let mut j: usize = 0;
        while j < ids.len()
            invariant
                self.cache.wf(),
                ids@ == self.cycle.view(),
                j <= ids@.len(),
                all@.map_values(|s: String| s@) == self.cache.rendered(ids@.subrange(0, j as int)),
            decreases ids@.len() - j,
        {
            let id = ids[j];
            proof {
                let next = ids@.subrange(0, j as int + 1);
                assert(next.drop_last() =~= ids@.subrange(0, j as int));
                assert(next.last() == id);
            }
            if (id.0 as usize) < self.cache.owners.len() {
                let (slot, param) = self.cache.owners[id.0 as usize];
                let name = self.cache.types[slot].name();
                let text = render_call(name, param);
                let ghost before = all@;
                all.push(text);
                proof {
                    assert(all@.map_values(|s: String| s@) =~= before.map_values(|s: String| s@).push(text@));
                }
            }
            j = j + 1;
        }
        assert(ids@.subrange(0, j as int) =~= ids@);
        all
    }
}

/// A cached output is fresh: every cell that its entry read was last written no later than the
/// revision the entry is valid at.
pub proof fn lemma_cache_freshness<O, V: Clone>(cache: &QueryCache<O>, t: QueryType, p: u64, runtime: &Runtime<V>)
    requires
        cache.wf(),
        runtime.wf(),
        cache.fresh_output(t, p, runtime).is_some(),
    ensures
        cache.id_of(t, p) matches Some(id) && cache.entry(id) matches Some(e) && forall|j: int|
            0 <= j < e.2.len() ==> #[trigger] runtime.stamp(e.2[j].0, e.2[j].1) <= e.1,
{
    let id = cache.id_of(t, p).unwrap();
    let e = cache.entry(id).unwrap();
    cache.lemma_entry_valid_at(id);
    lemma_max_stamp_bound(runtime.stamps(), e.2, e.1);
    assert forall|j: int| 0 <= j < e.2.len() implies #[trigger] runtime.stamp(e.2[j].0, e.2[j].1) <= e.1 by {
        assert(runtime.stamps()(e.2[j].0, e.2[j].1) <= e.1);
    }
}

/// An entry stored at the runtime's current revision is found again as long as no mutation has
/// happened since: a second query of the same pair is a cache hit with the same output.
pub proof fn lemma_hit_without_mutation<O, V: Clone>(cache: &QueryCache<O>, t: QueryType, p: u64, runtime: &Runtime<V>)
    requires
        cache.wf(),
        runtime.wf(),
        cache.id_of(t, p) matches Some(id) && cache.entry(id) matches Some(e) && e.1 == runtime.current(),
    ensures
        cache.fresh_output(t, p, runtime) == Some(cache.entry(cache.id_of(t, p).unwrap()).unwrap().0),
{
    let id = cache.id_of(t, p).unwrap();
    let e = cache.entry(id).unwrap();
    assert forall|j: int| 0 <= j < e.2.len() implies #[trigger] runtime.stamps()(e.2[j].0, e.2[j].1) <= e.1 by {
        runtime.lemma_stamp_bounds(e.2[j].0, e.2[j].1);
    }
    runtime.lemma_stamp_bounds(InputIndex(0), KeyIndex(0));
    lemma_max_stamp_bound(runtime.stamps(), e.2, e.1);
}

/// Once a pair has an id, every later state of the cache gives it the same id.
pub proof fn lemma_id_stability<O>(c0: &QueryCache<O>, c1: &QueryCache<O>, c2: &QueryCache<O>, t: QueryType, p: u64)
    requires
        c1.keeps_ids(c0),
        c2.keeps_ids(c1),
        c0.id_of(t, p).is_some(),
    ensures
        c2.id_of(t, p) == c0.id_of(t, p),
{
    assert(c1.id_of(t, p) == c0.id_of(t, p));
}

} // verus!
