use vstd::prelude::*;

verus! {

use crate::ModelError;

/// One key of the transition table together with every next token observed
/// after it.  Duplicates in `nexts` are meaningful: they carry frequency.
pub(crate) struct Entry {
    pub(crate) state: Vec<u32>,
    pub(crate) nexts: Vec<u32>,
}

/// The mapping denoted by a sequence of entries (later entries win, though a
/// well-formed table never holds the same state twice).
pub(crate) open spec fn map_of(s: Seq<Entry>) -> Map<Seq<u32>, Seq<u32>>
    decreases s.len(),
{
    if s.len() == 0 {
        Map::empty()
    } else {
        map_of(s.drop_last()).insert(s.last().state@, s.last().nexts@)
    }
}

/// Total number of recorded (state, next) occurrences in a sequence of entries.
pub(crate) open spec fn total_of(s: Seq<Entry>) -> nat
    decreases s.len(),
{
    if s.len() == 0 {
        0
    } else {
        total_of(s.drop_last()) + s.last().nexts@.len()
    }
}

/// No two entries share a state.
pub(crate) open spec fn distinct_states(s: Seq<Entry>) -> bool {
    forall|i: int, j: int|
        0 <= i < j < s.len() ==> (#[trigger] s[i]).state@ != (#[trigger] s[j]).state@
}

/// The core data structure: a fixed `order` and, for every state (a sequence
/// of exactly `order` token ids) seen in training, the ordered list of tokens
/// observed to follow it.
pub struct TransitionTable {
    pub(crate) order: usize,
    pub(crate) entries: Vec<Entry>,
}

impl View for TransitionTable {
    type V = Map<Seq<u32>, Seq<u32>>;

    open(crate) spec fn view(&self) -> Map<Seq<u32>, Seq<u32>> {
        map_of(self.entries@)
    }
}

impl TransitionTable {
    /// The number of prior tokens that form a state.
    pub open(crate) spec fn order_spec(self) -> nat {
        self.order as nat
    }

    /// Total number of recorded (state, next) occurrences, counting repeats.
    pub open(crate) spec fn total_spec(self) -> nat {
        total_of(self.entries@)
    }

    /// Well-formedness: a positive order; every state key has length `order`;
    /// occurrence lists are never empty; no state is stored twice.
    pub open(crate) spec fn wf(self) -> bool {
        &&& self.order >= 1
        &&& forall|i: int|
            0 <= i < self.entries@.len() ==> (#[trigger] self.entries@[i]).state@.len()
                == self.order
        &&& forall|i: int|
            0 <= i < self.entries@.len() ==> (#[trigger] self.entries@[i]).nexts@.len() >= 1
        &&& distinct_states(self.entries@)
    }

    /// An empty table bound to `order`; `order == 0` is rejected.
    pub fn new(order: usize) -> (r: Result<TransitionTable, ModelError>)
        ensures
            order == 0 <==> r is Err,
            r matches Err(e) ==> e == ModelError::InvalidConfiguration,
            r matches Ok(t) ==> t.wf() && t.order_spec() == order && t@
                == Map::<Seq<u32>, Seq<u32>>::empty() && t.total_spec() == 0,
    {
        if order == 0 {
            Err(ModelError::InvalidConfiguration)
        } else {
            Ok(TransitionTable { order, entries: Vec::new() })
        }
    }
}

/// Compare two token vectors for element-wise equality.
pub(crate) fn seq_eq(a: &Vec<u32>, b: &Vec<u32>) -> (r: bool)
    ensures
        r <==> a@ == b@,
{
    if a.len() != b.len() {
        assert(a@ != b@) by {
            assert(a@.len() != b@.len());
        }
        return false;
    }
    let n = a.len();
    let mut i: usize = 0;
    while i < n
        invariant
            n == a@.len() == b@.len(),
            i <= n,
            forall|j: int| 0 <= j < i ==> a@[j] == b@[j],
        decreases n - i,
    {
        if a[i] != b[i] {
            return false;
        }
        i += 1;
    }
    proof {
        assert(a@ =~= b@);
    }
    true
}

/// Copy `v[start .. start + count]` into a fresh vector.
pub(crate) fn copy_range(v: &Vec<u32>, start: usize, count: usize) -> (r: Vec<u32>)
    requires
        start + count <= v@.len(),
    ensures
        r@ == v@.subrange(start as int, start as int + count as int),
{
    let mut r: Vec<u32> = Vec::new();
    let n = v.len();
    let mut i: usize = 0;
    while i < count
        invariant
            n == v@.len(),
            start + count <= v@.len(),
            i <= count,
            r@ == v@.subrange(start as int, start as int + i as int),
        decreases count - i,
    {
        assert(start + i < n);
        r.push(v[start + i]);
        proof {
            assert(r@ =~= v@.subrange(start as int, start as int + i as int + 1));
        }
        i += 1;
    }
    r
}

/// The occurrence list for `state` after one more observation of `next`.
pub open spec fn occs_after(m: Map<Seq<u32>, Seq<u32>>, state: Seq<u32>, next: u32) -> Seq<u32> {
    if m.dom().contains(state) {
        m[state].push(next)
    } else {
        seq![next]
    }
}

/// The whole table after one more observation of (`state`, `next`).
pub open spec fn record_spec(
    m: Map<Seq<u32>, Seq<u32>>,
    state: Seq<u32>,
    next: u32,
) -> Map<Seq<u32>, Seq<u32>> {
    m.insert(state, occs_after(m, state, next))
}

/// A state is a key of `map_of(s)` exactly when some entry holds it.
pub(crate) proof fn lemma_map_of_contains(s: Seq<Entry>, k: Seq<u32>)
    ensures
        map_of(s).dom().contains(k) <==> exists|i: int|
            0 <= i < s.len() && (#[trigger] s[i]).state@ == k,
    decreases s.len(),
{
    if s.len() > 0 {
        lemma_map_of_contains(s.drop_last(), k);
        if s.last().state@ == k {
            assert(s[s.len() - 1].state@ == k);
        } else {
            if exists|i: int| 0 <= i < s.len() && (#[trigger] s[i]).state@ == k {
                let i = choose|i: int| 0 <= i < s.len() && (#[trigger] s[i]).state@ == k;
                assert(s.drop_last()[i].state@ == k);
            }
        }
    }
}

/// Dropping the last entry keeps states distinct.
pub(crate) proof fn lemma_distinct_drop_last(s: Seq<Entry>)
    requires
        s.len() > 0,
        distinct_states(s),
    ensures
        distinct_states(s.drop_last()),
{
    assert forall|i: int, j: int| 0 <= i < j < s.drop_last().len() implies (#[trigger] s.drop_last()[i]).state@
        != (#[trigger] s.drop_last()[j]).state@ by {
        assert(s.drop_last()[i] == s[i]);
        assert(s.drop_last()[j] == s[j]);
    }
}

/// Each entry of a duplicate-free sequence is visible, unshadowed, in `map_of`.
pub(crate) proof fn lemma_map_of_index(s: Seq<Entry>, i: int)
    requires
        distinct_states(s),
        0 <= i < s.len(),
    ensures
        map_of(s).dom().contains(s[i].state@),
        map_of(s)[s[i].state@] == s[i].nexts@,
    decreases s.len(),
{
    if i < s.len() - 1 {
        lemma_distinct_drop_last(s);
        lemma_map_of_index(s.drop_last(), i);
        assert(s.drop_last()[i] == s[i]);
        assert(s[i].state@ != s.last().state@);
    }
}

/// Updating entry `i` with an entry of the same state updates just that key.
pub(crate) proof fn lemma_map_of_update(s: Seq<Entry>, i: int, e: Entry)
    requires
        distinct_states(s),
        0 <= i < s.len(),
        e.state@ == s[i].state@,
    ensures
        map_of(s.update(i, e)) == map_of(s).insert(e.state@, e.nexts@),
    decreases s.len(),
{
    let t = s.update(i, e);
    if i == s.len() - 1 {
        assert(t.drop_last() =~= s.drop_last());
        assert(t.last() == e);
        assert(map_of(s).insert(e.state@, e.nexts@) =~= map_of(s.drop_last()).insert(
            e.state@,
            e.nexts@,
        ));
    } else {
        lemma_distinct_drop_last(s);
        assert(t.drop_last() =~= s.drop_last().update(i, e));
        assert(t.last() == s.last());
        lemma_map_of_update(s.drop_last(), i, e);
        assert(e.state@ != s.last().state@);
        assert(map_of(s.drop_last()).insert(e.state@, e.nexts@).insert(
            s.last().state@,
            s.last().nexts@,
        ) =~= map_of(s.drop_last()).insert(s.last().state@, s.last().nexts@).insert(
            e.state@,
            e.nexts@,
        ));
    }
}

/// Updating one entry changes the total by the change in that entry alone.
pub(crate) proof fn lemma_total_update(s: Seq<Entry>, i: int, e: Entry)
    requires
        0 <= i < s.len(),
    ensures
        total_of(s.update(i, e)) + s[i].nexts@.len() == total_of(s) + e.nexts@.len(),
    decreases s.len(),
{
    let t = s.update(i, e);
    if i == s.len() - 1 {
        assert(t.drop_last() =~= s.drop_last());
    } else {
        assert(t.drop_last() =~= s.drop_last().update(i, e));
        assert(t.last() == s.last());
        lemma_total_update(s.drop_last(), i, e);
    }
}

/// Appending an entry inserts its state and adds its occurrences.
pub(crate) proof fn lemma_map_of_push(s: Seq<Entry>, e: Entry)
    ensures
        map_of(s.push(e)) == map_of(s).insert(e.state@, e.nexts@),
        total_of(s.push(e)) == total_of(s) + e.nexts@.len(),
{
    assert(s.push(e).drop_last() =~= s);
    assert(s.push(e).last() == e);
}

/// A duplicate-free sequence of entries denotes a map with one key per entry.
pub(crate) proof fn lemma_map_of_dom_len(s: Seq<Entry>)
    requires
        distinct_states(s),
    ensures
        map_of(s).dom().finite(),
        map_of(s).dom().len() == s.len(),
    decreases s.len(),
{
    if s.len() > 0 {
        lemma_distinct_drop_last(s);
        lemma_map_of_dom_len(s.drop_last());
        lemma_map_of_contains(s.drop_last(), s.last().state@);
        assert(forall|i: int|
            0 <= i < s.drop_last().len() ==> (#[trigger] s.drop_last()[i]).state@
                != s.last().state@);
        assert(!map_of(s.drop_last()).dom().contains(s.last().state@));
        assert(map_of(s).dom() =~= map_of(s.drop_last()).dom().insert(s.last().state@));
        vstd::set::axiom_set_insert_finite(map_of(s.drop_last()).dom(), s.last().state@);
        vstd::set::axiom_set_insert_len(map_of(s.drop_last()).dom(), s.last().state@);
    }
}

impl TransitionTable {
    /// Index of the entry holding `state`, if any.
    fn find(&self, state: &Vec<u32>) -> (r: Option<usize>)
        ensures
            match r {
                Some(i) => i < self.entries@.len() && self.entries@[i as int].state@ == state@,
                None => forall|i: int|
                    0 <= i < self.entries@.len() ==> (#[trigger] self.entries@[i]).state@
                        != state@,
            },
    {
        let n = self.entries.len();
        let mut i: usize = 0;
        while i < n
            invariant
                n == self.entries@.len(),
                i <= n,
                forall|j: int| 0 <= j < i ==> (#[trigger] self.entries@[j]).state@ != state@,
            decreases n - i,
        {
            if seq_eq(&self.entries[i].state, state) {
                return Some(i);
            }
            i += 1;
        }
        None
    }

    /// Append `next` to the occurrence list for `state`, creating the list if
    /// absent.  `state` must already have length `order`.
    pub fn record(&mut self, state: &Vec<u32>, next: u32)
        requires
            old(self).wf(),
            state@.len() == old(self).order_spec(),
        ensures
            final(self).wf(),
            final(self).order_spec() == old(self).order_spec(),
            final(self).total_spec() == old(self).total_spec() + 1,
            final(self)@ == record_spec(old(self)@, state@, next),
    {
        let ghost s_old = self.entries@;
        match self.find(state) {
            Some(i) => {
                proof {
                    lemma_map_of_index(s_old, i as int);
                }
                self.entries[i].nexts.push(next);
                proof {
                    let s_new = self.entries@;
                    let e = s_new[i as int];
                    assert(s_new == s_old.update(i as int, e));
                    assert(e.state@ == s_old[i as int].state@);
                    assert(e.nexts@ == s_old[i as int].nexts@.push(next));
                    lemma_map_of_update(s_old, i as int, e);
                    lemma_total_update(s_old, i as int, e);
                    assert forall|p: int, q: int| 0 <= p < q < s_new.len() implies (#[trigger] s_new[p]).state@
                        != (#[trigger] s_new[q]).state@ by {
                        assert(s_new[p].state@ == s_old[p].state@);
                        assert(s_new[q].state@ == s_old[q].state@);
                    }
                }
            },
            None => {
                proof {
                    lemma_map_of_contains(s_old, state@);
                }
                let mut nexts: Vec<u32> = Vec::new();
                nexts.push(next);
                let e = Entry { state: copy_range(state, 0, state.len()), nexts };
                proof {
                    assert(e.state@ == state@.subrange(0, state@.len() as int));
                    assert(e.state@ =~= state@);
                }
                self.entries.push(e);
                proof {
                    let s_new = self.entries@;
                    lemma_map_of_push(s_old, s_new.last());
                    assert(occs_after(map_of(s_old), state@, next) =~= seq![next]);
                    assert forall|p: int, q: int| 0 <= p < q < s_new.len() implies (#[trigger] s_new[p]).state@
                        != (#[trigger] s_new[q]).state@ by {
                        if q < s_new.len() - 1 {
                            assert(s_new[p] == s_old[p]);
                            assert(s_new[q] == s_old[q]);
                        } else {
                            assert(s_new[p] == s_old[p]);
                        }
                    }
                }
            },
        }
    }

    /// The occurrence list recorded for `state`, if any.  Never mutates.
    pub fn lookup(&self, state: &Vec<u32>) -> (r: Option<&Vec<u32>>)
        requires
            self.wf(),
        ensures
            match r {
                Some(v) => self@.dom().contains(state@) && v@ == self@[state@] && v@.len() >= 1,
                None => !self@.dom().contains(state@),
            },
    {
        match self.find(state) {
            Some(i) => {
                proof {
                    lemma_map_of_index(self.entries@, i as int);
                }
                Some(&self.entries[i].nexts)
            },
            None => {
                proof {
                    lemma_map_of_contains(self.entries@, state@);
                }
                None
            },
        }
    }

    /// How many distinct states the table holds.
    pub fn key_count(&self) -> (r: usize)
        requires
            self.wf(),
        ensures
            r == self@.dom().len(),
    {
        proof {
            lemma_map_of_dom_len(self.entries@);
        }
        self.entries.len()
    }
}

} // verus!
