use vstd::prelude::*;

use crate::query::QueryId;

verus! {

/// The position of the topmost occurrence of `id` in `s`, or -1 when `id` does not occur.
pub open spec fn last_index_of(s: Seq<QueryId>, id: QueryId) -> int
    decreases s.len(),
{
    if s.len() == 0 {
        -1
    } else if s.last() == id {
        s.len() - 1
    } else {
        last_index_of(s.drop_last(), id)
    }
}

/// `last_index_of` finds an occurrence exactly when there is one, and none above it.
pub proof fn lemma_last_index_of(s: Seq<QueryId>, id: QueryId)
    ensures
        -1 <= last_index_of(s, id) < s.len(),
        s.contains(id) <==> last_index_of(s, id) >= 0,
        last_index_of(s, id) >= 0 ==> s[last_index_of(s, id)] == id,
        forall|j: int| last_index_of(s, id) < j < s.len() ==> s[j] != id,
    decreases s.len(),
{
    if s.len() > 0 {
        lemma_last_index_of(s.drop_last(), id);
        if s.last() != id {
            if s.contains(id) {
                let j = choose|j: int| 0 <= j < s.len() && s[j] == id;
                assert(s.drop_last()[j] == id);
            }
            if s.drop_last().contains(id) {
                let j = choose|j: int| 0 <= j < s.drop_last().len() && s.drop_last()[j] == id;
                assert(s[j] == id);
            }
            assert forall|j: int| last_index_of(s, id) < j < s.len() implies s[j] != id by {
                if j < s.len() - 1 {
                    assert(s[j] == s.drop_last()[j]);
                }
            }
        }
    }
}

/// The chain reported when `id` is entered again on `stack` starts and ends with `id`, lists
/// every query entered since its topmost occurrence in the order of entry, and is at least two
/// long.
pub proof fn lemma_cycle_closed(stack: Seq<QueryId>, id: QueryId)
    requires
        stack.contains(id),
    ensures
        ({
            let c = stack.subrange(last_index_of(stack, id), stack.len() as int).push(id);
            &&& c.len() >= 2
            &&& c[0] == id
            &&& c.last() == id
            &&& forall|j: int| 0 <= j < c.len() - 1 ==> c[j] == stack[last_index_of(stack, id) + j]
            &&& forall|j: int| 0 < j < c.len() - 1 ==> c[j] != id
        }),
{
    lemma_last_index_of(stack, id);
}

/// The queries that are executing on one thread, innermost last.
#[derive(Debug, Default)]
pub struct QueryStack {
    active: Vec<QueryId>,
}

/// A chain of queries that leads back to its first query, which stands at both ends.
#[derive(Debug)]
pub struct Cycle {
    cycle: Vec<QueryId>,
}

impl Cycle {
    /// The queries of the chain in the order in which they were entered.
    pub closed spec fn view(&self) -> Seq<QueryId> {
        self.cycle@
    }

    pub fn cycle(&self) -> (r: &[QueryId])
        ensures
            r@ == self.view(),
    {
        self.cycle.as_slice()
    }
}

impl QueryStack {
    /// The active queries, outermost first.
    pub closed spec fn view(&self) -> Seq<QueryId> {
        self.active@
    }

    pub fn new() -> (r: Self)
        ensures
            r.view() == Seq::<QueryId>::empty(),
    {
        QueryStack { active: Vec::new() }
    }

    /// Enters `query_id`. When it is already active, nothing changes and the cycle from its
    /// topmost occurrence back to it is returned; otherwise it is pushed and the depth to pop
    /// it at is returned.
    pub fn push(&mut self, query_id: QueryId) -> (r: Result<usize, Cycle>)
        ensures
            match r {
                Ok(pop_at) => {
                    &&& !old(self).view().contains(query_id)
                    &&& final(self).view() == old(self).view().push(query_id)
                    &&& pop_at == final(self).view().len()
                },
                Err(c) => {
                    &&& old(self).view().contains(query_id)
                    &&& final(self).view() == old(self).view()
                    &&& c.view() == old(self).view().subrange(
                        last_index_of(old(self).view(), query_id),
                        old(self).view().len() as int,
                    ).push(query_id)
                },
            },
    {
        proof {
            lemma_last_index_of(self.active@, query_id);
        }
        let len = self.active.len();
        let mut i: usize = len;
        while i > 0
            invariant
                i <= len == self.active@.len(),
                self.active@ == old(self).active@,
                forall|j: int| i <= j < len ==> self.active@[j] != query_id,
            decreases i,
        {
            if self.active[i - 1] == query_id {
                let start = i - 1;
                let mut cycle: Vec<QueryId> = Vec::new();
                let mut j: usize = start;
                while j < len
                    invariant
                        start <= j <= len == self.active@.len(),
                        self.active@ == old(self).active@,
                        cycle@ == self.active@.subrange(start as int, j as int),
                    decreases len - j,
                {
                    cycle.push(self.active[j]);
                    j = j + 1;
                }
                cycle.push(query_id);
                proof {
                    lemma_last_index_of(self.active@, query_id);
                    assert(self.active@.contains(query_id)) by {
                        assert(self.active@[start as int] == query_id);
                    }
                    let li = last_index_of(self.active@, query_id);
                    assert(li == start) by {
                        if li > start {
                            assert(self.active@[li] == query_id);
                        }
                    }
                }
                return Err(Cycle { cycle });
            }
            i = i - 1;
        }
        self.active.push(query_id);
        Ok(self.active.len())
    }

    /// How many queries are active.
    pub fn depth(&self) -> (r: usize)
        ensures
            r == self.view().len(),
    {
        self.active.len()
    }

    /// Leaves the innermost query; `pop_at` is the depth that `push` returned for it.
    pub fn pop(&mut self, pop_at: usize)
        requires
            old(self).view().len() == pop_at,
            pop_at > 0,
        ensures
            final(self).view() == old(self).view().drop_last(),
    {
        self.active.pop();
    }
}

} // verus!
