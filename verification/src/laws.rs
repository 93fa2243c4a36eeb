use vstd::prelude::*;

verus! {

use crate::model::trained;
use crate::model::trained_upto;
use vstd::multiset::Multiset;
use crate::table::occs_after;
use crate::table::record_spec;

// Training accumulates observations.  Per state the occurrence list keeps the
// order in which windows were recorded, so feeding lines in another order may
// permute each list; what cannot change is how often each (state, next) pair
// was seen.  The lemmas below state that exactly: under the per-state
// multiset view, training on two token sequences commutes.

/// Each state's occurrences as a multiset: the view of a table under which
/// the order of training lines cannot matter.
pub open spec fn occ_multisets(m: Map<Seq<u32>, Seq<u32>>) -> Map<Seq<u32>, Multiset<u32>> {
    m.map_values(|v: Seq<u32>| v.to_multiset())
}

/// One observation of (`state`, `next`), on the multiset view.
pub open spec fn record_ms(m: Map<Seq<u32>, Multiset<u32>>, s: Seq<u32>, x: u32) -> Map<
    Seq<u32>,
    Multiset<u32>,
> {
    m.insert(
        s,
        if m.dom().contains(s) {
            m[s].insert(x)
        } else {
            Multiset::<u32>::empty().insert(x)
        },
    )
}

/// The first `i` windows of `t`, on the multiset view.
pub open spec fn trained_ms_upto(
    m: Map<Seq<u32>, Multiset<u32>>,
    t: Seq<u32>,
    k: nat,
    i: nat,
) -> Map<Seq<u32>, Multiset<u32>>
    decreases i,
{
    if i == 0 {
        m
    } else {
        record_ms(
            trained_ms_upto(m, t, k, (i - 1) as nat),
            t.subrange(i - 1, i - 1 + k),
            t[i - 1 + k as int],
        )
    }
}

/// A whole training pass over `t`, on the multiset view.
pub open spec fn trained_ms(m: Map<Seq<u32>, Multiset<u32>>, t: Seq<u32>, k: nat) -> Map<
    Seq<u32>,
    Multiset<u32>,
> {
    if t.len() <= k {
        m
    } else {
        trained_ms_upto(m, t, k, (t.len() - k) as nat)
    }
}

/// A recording keeps every occurrence already present.
proof fn lemma_record_keeps(m: Map<Seq<u32>, Seq<u32>>, s: Seq<u32>, x: u32, s0: Seq<u32>, x0: u32)
    requires
        m.dom().contains(s0),
        m[s0].contains(x0),
    ensures
        record_spec(m, s, x).dom().contains(s0),
        record_spec(m, s, x)[s0].contains(x0),
{
    if s == s0 {
        let i = choose|i: int| 0 <= i < m[s0].len() && m[s0][i] == x0;
        assert(m[s0].push(x)[i] == x0);
    }
}

/// After training, every window of the input is recorded: its state is a key
/// and its next token is among that state's occurrences.
pub proof fn lemma_trained_contains_windows(m: Map<Seq<u32>, Seq<u32>>, t: Seq<u32>, k: nat, j: int)
    requires
        0 <= j,
        j + k < t.len(),
    ensures
        trained(m, t, k).dom().contains(t.subrange(j, j + k)),
        trained(m, t, k)[t.subrange(j, j + k)].contains(t[j + k]),
{
    lemma_trained_upto_contains_windows(m, t, k, j, (t.len() - k) as nat);
}

/// The windows already slid over are recorded in `trained_upto`.
proof fn lemma_trained_upto_contains_windows(
    m: Map<Seq<u32>, Seq<u32>>,
    t: Seq<u32>,
    k: nat,
    j: int,
    i: nat,
)
    requires
        0 <= j,
        j + k < t.len(),
        j < i,
        i + k <= t.len(),
    ensures
        trained_upto(m, t, k, i).dom().contains(t.subrange(j, j + k)),
        trained_upto(m, t, k, i)[t.subrange(j, j + k)].contains(t[j + k]),
    decreases i,
{
    let prev = trained_upto(m, t, k, (i - 1) as nat);
    let s = t.subrange(i - 1, i - 1 + k);
    let x = t[i - 1 + k as int];
    if j == i - 1 {
        if prev.dom().contains(s) {
            assert(prev[s].push(x).last() == x);
        } else {
            assert(seq![x][0] == x);
        }
    } else {
        lemma_trained_upto_contains_windows(m, t, k, j, (i - 1) as nat);
        lemma_record_keeps(prev, s, x, t.subrange(j, j + k), t[j + k as int]);
    }
}

/// Taking multisets after a recording is recording on the multiset view.
proof fn lemma_record_hom(m: Map<Seq<u32>, Seq<u32>>, s: Seq<u32>, x: u32)
    ensures
        occ_multisets(record_spec(m, s, x)) == record_ms(occ_multisets(m), s, x),
{
    broadcast use vstd::seq_lib::group_to_multiset_ensures;
    broadcast use vstd::multiset::group_multiset_axioms;
    broadcast use vstd::multiset::group_multiset_properties;

    let ov = occs_after(m, s, x);
    if m.dom().contains(s) {
        assert(ov.to_multiset() =~= m[s].to_multiset().insert(x));
    } else {
        assert(seq![x] =~= Seq::<u32>::empty().push(x));
        assert(Seq::<u32>::empty().to_multiset().len() == 0);
        assert(Seq::<u32>::empty().to_multiset() =~= Multiset::<u32>::empty());
        assert(ov.to_multiset() =~= Multiset::<u32>::empty().insert(x));
    }
    assert(occ_multisets(record_spec(m, s, x)) =~~= record_ms(occ_multisets(m), s, x));
}

/// Training after a recording is a pass on the multiset view.
proof fn lemma_trained_hom(m: Map<Seq<u32>, Seq<u32>>, t: Seq<u32>, k: nat, i: nat)
    ensures
        occ_multisets(trained_upto(m, t, k, i)) == trained_ms_upto(occ_multisets(m), t, k, i),
    decreases i,
{
    if i > 0 {
        lemma_trained_hom(m, t, k, (i - 1) as nat);
        lemma_record_hom(trained_upto(m, t, k, (i - 1) as nat), t.subrange(i - 1, i - 1 + k), t[i - 1 + k as int]);
    }
}

/// Two single observations commute on the multiset view.
proof fn lemma_record_ms_commutes(
    m: Map<Seq<u32>, Multiset<u32>>,
    s1: Seq<u32>,
    x1: u32,
    s2: Seq<u32>,
    x2: u32,
)
    ensures
        record_ms(record_ms(m, s1, x1), s2, x2) == record_ms(record_ms(m, s2, x2), s1, x1),
{
    broadcast use vstd::multiset::group_multiset_axioms;
    broadcast use vstd::multiset::group_multiset_properties;

    if s1 == s2 {
        if m.dom().contains(s1) {
            assert(m[s1].insert(x1).insert(x2) =~= m[s1].insert(x2).insert(x1));
        } else {
            assert(Multiset::<u32>::empty().insert(x1).insert(x2) =~= Multiset::<
                u32,
            >::empty().insert(x2).insert(x1));
        }
        assert(record_ms(record_ms(m, s1, x1), s2, x2) =~~= record_ms(
            record_ms(m, s2, x2),
            s1,
            x1,
        ));
    } else {
        assert(record_ms(record_ms(m, s1, x1), s2, x2) =~~= record_ms(
            record_ms(m, s2, x2),
            s1,
            x1,
        ));
    }
}

/// A whole pass commutes with one prior observation, on the multiset view.
proof fn lemma_trained_ms_after_record(
    m: Map<Seq<u32>, Multiset<u32>>,
    s: Seq<u32>,
    x: u32,
    t: Seq<u32>,
    k: nat,
    i: nat,
)
    ensures
        trained_ms_upto(record_ms(m, s, x), t, k, i) == record_ms(
            trained_ms_upto(m, t, k, i),
            s,
            x,
        ),
    decreases i,
{
    if i > 0 {
        lemma_trained_ms_after_record(m, s, x, t, k, (i - 1) as nat);
        lemma_record_ms_commutes(
            trained_ms_upto(m, t, k, (i - 1) as nat),
            s,
            x,
            t.subrange(i - 1, i - 1 + k),
            t[i - 1 + k as int],
        );
    }
}

/// Two whole passes commute, on the multiset view.
proof fn lemma_trained_ms_commutes(
    m: Map<Seq<u32>, Multiset<u32>>,
    a: Seq<u32>,
    b: Seq<u32>,
    k: nat,
    i: nat,
)
    ensures
        trained_ms_upto(trained_ms(m, a, k), b, k, i) == trained_ms(
            trained_ms_upto(m, b, k, i),
            a,
            k,
        ),
    decreases i,
{
    if i > 0 {
        lemma_trained_ms_commutes(m, a, b, k, (i - 1) as nat);
        let prev = trained_ms_upto(m, b, k, (i - 1) as nat);
        let s = b.subrange(i - 1, i - 1 + k);
        let x = b[i - 1 + k as int];
        if a.len() <= k {
        } else {
            lemma_trained_ms_after_record(prev, s, x, a, k, (a.len() - k) as nat);
        }
    }
}

/// Training is commutative across lines: training on `a` then `b` and on `b`
/// then `a` yield the same mapping from state to occurrence multiset.
pub proof fn lemma_train_commutes(m: Map<Seq<u32>, Seq<u32>>, a: Seq<u32>, b: Seq<u32>, k: nat)
    ensures
        occ_multisets(trained(trained(m, a, k), b, k)) == occ_multisets(
            trained(trained(m, b, k), a, k),
        ),
{
    if a.len() <= k && b.len() <= k {
    } else if a.len() <= k {
        assert(trained(m, a, k) == m);
        assert(trained(trained(m, b, k), a, k) == trained(m, b, k));
    } else if b.len() <= k {
        assert(trained(m, b, k) == m);
        assert(trained(trained(m, a, k), b, k) == trained(m, a, k));
    } else {
        let na = (a.len() - k) as nat;
        let nb = (b.len() - k) as nat;
        lemma_trained_hom(trained(m, a, k), b, k, nb);
        lemma_trained_hom(m, a, k, na);
        lemma_trained_hom(trained(m, b, k), a, k, na);
        lemma_trained_hom(m, b, k, nb);
        lemma_trained_ms_commutes(occ_multisets(m), a, b, k, nb);
    }
}

} // verus!
