use vstd::prelude::*;

verus! {

use crate::ModelError;
use crate::model::MarkovModel;
use crate::table::{Entry, TransitionTable, distinct_states, map_of, seq_eq};
use vstd::bytes::{
    spec_u32_from_le_bytes,
    spec_u32_to_le_bytes,
    spec_u64_from_le_bytes,
    spec_u64_to_le_bytes,
};

// The persisted profile of a model is a fixed little-endian layout:
// order (8 bytes), entry count (8 bytes), then for each entry its state
// (order tokens of 4 bytes each), its occurrence count (8 bytes, at least 1)
// and its occurrences (4 bytes each).  The whole image is then wrapped in one
// zstd frame by `MarkovModel::save`.

/// The byte image of a token sequence.
pub(crate) open spec fn enc_tokens(s: Seq<u32>) -> Seq<u8>
    decreases s.len(),
{
    if s.len() == 0 {
        Seq::empty()
    } else {
        spec_u32_to_le_bytes(s[0]) + enc_tokens(s.drop_first())
    }
}

/// The byte image of one table entry.
pub(crate) open spec fn enc_entry(st: Seq<u32>, nx: Seq<u32>) -> Seq<u8> {
    enc_tokens(st) + spec_u64_to_le_bytes(nx.len() as u64) + enc_tokens(nx)
}

/// The byte image of a run of table entries.
pub(crate) open spec fn enc_entries(s: Seq<Entry>) -> Seq<u8>
    decreases s.len(),
{
    if s.len() == 0 {
        Seq::empty()
    } else {
        enc_entry(s[0].state@, s[0].nexts@) + enc_entries(s.drop_first())
    }
}

/// The byte image of a whole model: order, entry count, entries.
pub open(crate) spec fn enc_model(m: MarkovModel) -> Seq<u8> {
    spec_u64_to_le_bytes(m.order_spec() as u64) + spec_u64_to_le_bytes(
        m.transitions.entries@.len() as u64,
    ) + enc_entries(m.transitions.entries@)
}

pub(crate) proof fn lemma_enc_tokens_len(s: Seq<u32>)
    ensures
        enc_tokens(s).len() == 4 * s.len(),
    decreases s.len(),
{
    vstd::bytes::lemma_auto_spec_u32_to_from_le_bytes();
    if s.len() > 0 {
        lemma_enc_tokens_len(s.drop_first());
    }
}

/// Appending one token appends its four bytes.
pub(crate) proof fn lemma_enc_tokens_snoc(s: Seq<u32>, x: u32)
    ensures
        enc_tokens(s.push(x)) == enc_tokens(s) + spec_u32_to_le_bytes(x),
    decreases s.len(),
{
    if s.len() == 0 {
        assert(s.push(x)[0] == x);
        assert(s.push(x).drop_first() =~= Seq::<u32>::empty());
        assert(enc_tokens(Seq::<u32>::empty()) == Seq::<u8>::empty());
        assert(enc_tokens(s.push(x)) =~= spec_u32_to_le_bytes(x));
        assert(enc_tokens(s) + spec_u32_to_le_bytes(x) =~= spec_u32_to_le_bytes(x));
    } else {
        assert(s.push(x).drop_first() =~= s.drop_first().push(x));
        assert(s.push(x)[0] == s[0]);
        lemma_enc_tokens_snoc(s.drop_first(), x);
        assert(enc_tokens(s.push(x)) =~= enc_tokens(s) + spec_u32_to_le_bytes(x));
    }
}

/// Appending one entry appends its image.
pub(crate) proof fn lemma_enc_entries_snoc(s: Seq<Entry>, e: Entry)
    ensures
        enc_entries(s.push(e)) == enc_entries(s) + enc_entry(e.state@, e.nexts@),
    decreases s.len(),
{
    if s.len() == 0 {
        assert(s.push(e)[0] == e);
        assert(s.push(e).drop_first() =~= Seq::<Entry>::empty());
        assert(enc_entries(Seq::<Entry>::empty()) == Seq::<u8>::empty());
        assert(enc_entries(s.push(e)) =~= enc_entry(e.state@, e.nexts@));
        assert(enc_entries(s) + enc_entry(e.state@, e.nexts@) =~= enc_entry(e.state@, e.nexts@));
    } else {
        assert(s.push(e).drop_first() =~= s.drop_first().push(e));
        assert(s.push(e)[0] == s[0]);
        lemma_enc_entries_snoc(s.drop_first(), e);
        assert(enc_entries(s.push(e)) =~= enc_entries(s) + enc_entry(e.state@, e.nexts@));
    }
}

/// Append the four little-endian bytes of each token of `v` to `out`.
fn push_tokens(out: &mut Vec<u8>, v: &Vec<u32>)
    ensures
        final(out)@ == old(out)@ + enc_tokens(v@),
{
    let n = v.len();
    let mut i: usize = 0;
    proof {
        assert(v@.subrange(0, 0) =~= Seq::<u32>::empty());
        assert(out@ + enc_tokens(v@.subrange(0, 0)) =~= out@);
    }
    while i < n
        invariant
            n == v@.len(),
            i <= n,
            out@ == old(out)@ + enc_tokens(v@.subrange(0, i as int)),
        decreases n - i,
    {
        let mut bs = vstd::bytes::u32_to_le_bytes(v[i]);
        out.append(&mut bs);
        proof {
            lemma_enc_tokens_snoc(v@.subrange(0, i as int), v@[i as int]);
            assert(v@.subrange(0, i as int).push(v@[i as int]) =~= v@.subrange(0, i as int + 1));
        }
        i += 1;
    }
    proof {
        assert(v@.subrange(0, n as int) =~= v@);
    }
}

/// The token at byte position `i`.
pub(crate) open spec fn dec_u32_at(b: Seq<u8>, i: int) -> u32 {
    spec_u32_from_le_bytes(b.subrange(i, i + 4))
}

/// The 64-bit field at byte position `i`.
pub(crate) open spec fn dec_u64_at(b: Seq<u8>, i: int) -> u64 {
    spec_u64_from_le_bytes(b.subrange(i, i + 8))
}

/// The run of `n` tokens at byte position `i`, if the bytes last that long.
pub(crate) open spec fn dec_tokens(b: Seq<u8>, i: int, n: nat) -> Option<Seq<u32>>
    decreases n,
{
    if n == 0 {
        Some(Seq::empty())
    } else if i + 4 <= b.len() {
        match dec_tokens(b, i + 4, (n - 1) as nat) {
            Some(rest) => Some(seq![dec_u32_at(b, i)] + rest),
            None => None,
        }
    } else {
        None
    }
}

/// One entry at byte position `i`: a state of `k` tokens, a positive
/// occurrence count, and that many occurrences.  Yields the entry and the
/// position after it.
pub(crate) open spec fn dec_entry(b: Seq<u8>, i: int, k: nat) -> Option<
    ((Seq<u32>, Seq<u32>), int),
> {
    match dec_tokens(b, i, k) {
        None => None,
        Some(st) => {
            let p = i + 4 * k;
            if p + 8 <= b.len() {
                let ln = dec_u64_at(b, p) as nat;
                if ln >= 1 {
                    match dec_tokens(b, p + 8, ln) {
                        None => None,
                        Some(nx) => Some(((st, nx), p + 8 + 4 * ln)),
                    }
                } else {
                    None
                }
            } else {
                None
            }
        },
    }
}

/// A run of `n` entries starting at byte position `i`.
pub(crate) open spec fn dec_entries(b: Seq<u8>, i: int, k: nat, n: nat) -> Option<
    (Seq<(Seq<u32>, Seq<u32>)>, int),
>
    decreases n,
{
    if n == 0 {
        Some((Seq::empty(), i))
    } else {
        match dec_entry(b, i, k) {
            None => None,
            Some((e, p)) => match dec_entries(b, p, k, (n - 1) as nat) {
                None => None,
                Some((rest, q)) => Some((seq![e] + rest, q)),
            },
        }
    }
}

/// No two parsed entries share a state.
pub(crate) open spec fn distinct_pairs(ps: Seq<(Seq<u32>, Seq<u32>)>) -> bool {
    forall|i: int, j: int| 0 <= i < j < ps.len() ==> (#[trigger] ps[i]).0 != (#[trigger] ps[j]).0
}

/// The mapping a run of parsed entries denotes.
pub(crate) open spec fn map_of_pairs(ps: Seq<(Seq<u32>, Seq<u32>)>) -> Map<Seq<u32>, Seq<u32>>
    decreases ps.len(),
{
    if ps.len() == 0 {
        Map::empty()
    } else {
        map_of_pairs(ps.drop_last()).insert(ps.last().0, ps.last().1)
    }
}

/// What a plain byte image means: the (order, table) it decodes to, if it is
/// a complete, duplicate-free image with a positive order that fits the
/// machine.
pub open(crate) spec fn dec_model(b: Seq<u8>) -> Option<(nat, Map<Seq<u32>, Seq<u32>>)> {
    if b.len() >= 16 {
        let k = dec_u64_at(b, 0) as nat;
        let n = dec_u64_at(b, 8) as nat;
        if 1 <= k && k <= usize::MAX {
            match dec_entries(b, 16, k, n) {
                None => None,
                Some((ps, end)) => if end == b.len() && distinct_pairs(ps) {
                    Some((k, map_of_pairs(ps)))
                } else {
                    None
                },
            }
        } else {
            None
        }
    } else {
        None
    }
}

/// Read the 32-bit little-endian field at `pos`.
fn read_u32(b: &Vec<u8>, pos: usize) -> (r: u32)
    requires
        pos + 4 <= b@.len(),
    ensures
        r == dec_u32_at(b@, pos as int),
{
    let blen = b.len();
    assert(pos + 4 <= blen);
    let s = vstd::slice::slice_subrange(b.as_slice(), pos, pos + 4);
    vstd::bytes::u32_from_le_bytes(s)
}

/// Read the 64-bit little-endian field at `pos`.
fn read_u64(b: &Vec<u8>, pos: usize) -> (r: u64)
    requires
        pos + 8 <= b@.len(),
    ensures
        r == dec_u64_at(b@, pos as int),
{
    let blen = b.len();
    assert(pos + 8 <= blen);
    let s = vstd::slice::slice_subrange(b.as_slice(), pos, pos + 8);
    vstd::bytes::u64_from_le_bytes(s)
}

/// Parse `n_tokens` tokens at `pos`, or report that the bytes run out.
fn parse_tokens(b: &Vec<u8>, pos: usize, n_tokens: u64) -> (r: Result<
    (Vec<u32>, usize),
    ModelError,
>)
    requires
        pos <= b@.len(),
    ensures
        match r {
            Ok(vp) => dec_tokens(b@, pos as int, n_tokens as nat) == Some(vp.0@) && vp.1 == pos
                + 4 * n_tokens && vp.1 <= b@.len() && vp.0@.len() == n_tokens,
            Err(e) => dec_tokens(b@, pos as int, n_tokens as nat) is None && e
                == ModelError::PersistenceError,
        },
{
    let blen = b.len();
    let mut v: Vec<u32> = Vec::new();
    let mut p = pos;
    let mut j: u64 = 0;
    while j < n_tokens
        invariant
            blen == b@.len(),
            pos <= p <= blen,
            j <= n_tokens,
            v@.len() == j,
            p == pos + 4 * j,
            dec_tokens(b@, pos as int, n_tokens as nat) == (match dec_tokens(
                b@,
                p as int,
                (n_tokens - j) as nat,
            ) {
                Some(rest) => Some(v@ + rest),
                None => None::<Seq<u32>>,
            }),
        decreases n_tokens - j,
    {
        if blen - p < 4 {
            return Err(ModelError::PersistenceError);
        }
        let x = read_u32(b, p);
        let ghost v0 = v@;
        let ghost p0 = p as int;
        v.push(x);
        p += 4;
        j += 1;
        proof {
            let rest_n = (n_tokens - j) as nat;
            match dec_tokens(b@, p as int, rest_n) {
                Some(rest) => {
                    assert(dec_tokens(b@, p0, (rest_n + 1) as nat) == Some(
                        seq![dec_u32_at(b@, p0)] + rest,
                    ));
                    assert(v0 + (seq![x] + rest) =~= v@ + rest);
                },
                None => {
                    assert(dec_tokens(b@, p0, (rest_n + 1) as nat) is None);
                },
            }
        }
    }
    proof {
        assert(dec_tokens(b@, p as int, 0) == Some(Seq::<u32>::empty()));
        assert(v@ + Seq::<u32>::empty() =~= v@);
    }
    Ok((v, p))
}

/// Pairs view of a run of entries.
pub(crate) open spec fn pairs_of(s: Seq<Entry>) -> Seq<(Seq<u32>, Seq<u32>)> {
    s.map_values(|e: Entry| (e.state@, e.nexts@))
}

/// A run of entries and its pairs view denote the same mapping.
pub(crate) proof fn lemma_map_of_pairs(s: Seq<Entry>)
    ensures
        map_of_pairs(pairs_of(s)) == map_of(s),
    decreases s.len(),
{
    if s.len() > 0 {
        assert(pairs_of(s).drop_last() =~= pairs_of(s.drop_last()));
        lemma_map_of_pairs(s.drop_last());
        assert(pairs_of(s).last() == (s.last().state@, s.last().nexts@));
    }
}

/// Decode a plain byte image; any malformed image yields `PersistenceError`.
pub fn decode_model(b: &Vec<u8>) -> (r: Result<MarkovModel, ModelError>)
    ensures
        r is Ok <==> dec_model(b@) is Some,
        r matches Ok(m) ==> m.wf() && dec_model(b@) == Some((m.order_spec(), m@)),
        r matches Err(e) ==> e == ModelError::PersistenceError,
{
    let blen = b.len();
    if blen < 16 {
        return Err(ModelError::PersistenceError);
    }
    let k64 = read_u64(b, 0);
    let n64 = read_u64(b, 8);
    if k64 < 1 || k64 > usize::MAX as u64 {
        return Err(ModelError::PersistenceError);
    }
    let k = k64 as usize;
    let ghost gk = k as nat;
    let mut entries: Vec<Entry> = Vec::new();
    let mut pos: usize = 16;
    let mut done: u64 = 0;
    proof {
        assert(pairs_of(entries@) =~= Seq::<(Seq<u32>, Seq<u32>)>::empty());
        match dec_entries(b@, 16, gk, n64 as nat) {
            Some((rest, end)) => {
                assert(pairs_of(entries@) + rest =~= rest);
            },
            None => {},
        }
    }
    while done < n64
        invariant
            blen == b@.len(),
            16 <= pos <= blen,
            done <= n64,
            gk == k as nat,
            1 <= k,
            k64 == k,
            k64 == dec_u64_at(b@, 0),
            n64 == dec_u64_at(b@, 8),
            entries@.len() == done,
            forall|i: int| 0 <= i < entries@.len() ==> (#[trigger] entries@[i]).state@.len() == gk,
            forall|i: int| 0 <= i < entries@.len() ==> (#[trigger] entries@[i]).nexts@.len() >= 1,
            dec_entries(b@, 16, gk, n64 as nat) == (match dec_entries(
                b@,
                pos as int,
                gk,
                (n64 - done) as nat,
            ) {
                Some((rest, end)) => Some((pairs_of(entries@) + rest, end)),
                None => None::<(Seq<(Seq<u32>, Seq<u32>)>, int)>,
            }),
        decreases n64 - done,
    {
        proof {
            assert(dec_u64_at(b@, 0) as nat == gk);
            assert(1 <= gk && gk <= usize::MAX);
        }
        let st_res = parse_tokens(b, pos, k64);
        let (st, p1) = match st_res {
            Ok(x) => x,
            Err(e) => {
                proof {
                    assert(dec_entry(b@, pos as int, gk) is None);
                    assert(dec_entries(b@, pos as int, gk, (n64 - done) as nat) is None);
                    assert(dec_model(b@) is None);
                }
                return Err(e);
            },
        };
        if blen - p1 < 8 {
            proof {
                assert(dec_entry(b@, pos as int, gk) is None);
                assert(dec_entries(b@, pos as int, gk, (n64 - done) as nat) is None);
                assert(dec_model(b@) is None);
            }
            return Err(ModelError::PersistenceError);
        }
        assert(p1 + 8 <= blen);
        let ln = read_u64(b, p1);
        if ln < 1 {
            proof {
                assert(dec_entry(b@, pos as int, gk) is None);
                assert(dec_entries(b@, pos as int, gk, (n64 - done) as nat) is None);
                assert(dec_model(b@) is None);
            }
            return Err(ModelError::PersistenceError);
        }
        let nx_res = parse_tokens(b, p1 + 8, ln);
        let (nx, p2) = match nx_res {
            Ok(x) => x,
            Err(e) => {
                proof {
                    assert(dec_entry(b@, pos as int, gk) is None);
                    assert(dec_entries(b@, pos as int, gk, (n64 - done) as nat) is None);
                    assert(dec_model(b@) is None);
                }
                return Err(e);
            },
        };
        let ghost e_pair = (st@, nx@);
        let ghost entries0 = entries@;
        let ghost pos0 = pos as int;
        proof {
            assert(dec_entry(b@, pos0, gk) == Some((e_pair, p2 as int)));
        }
        entries.push(Entry { state: st, nexts: nx });
        pos = p2;
        done += 1;
        proof {
            assert(pairs_of(entries@) =~= pairs_of(entries0).push(e_pair));
            match dec_entries(b@, p2 as int, gk, (n64 - done) as nat) {
                Some((rest2, end2)) => {
                    assert(dec_entries(b@, pos0, gk, (n64 - done + 1) as nat) == Some(
                        (seq![e_pair] + rest2, end2),
                    ));
                    assert(pairs_of(entries0) + (seq![e_pair] + rest2) =~= pairs_of(entries@)
                        + rest2);
                },
                None => {
                    assert(dec_entries(b@, pos0, gk, (n64 - done + 1) as nat) is None);
                },
            }
        }
    }
    proof {
        assert(dec_entries(b@, pos as int, gk, 0) == Some(
            (Seq::<(Seq<u32>, Seq<u32>)>::empty(), pos as int),
        ));
        assert(pairs_of(entries@) + Seq::<(Seq<u32>, Seq<u32>)>::empty() =~= pairs_of(entries@));
    }
    proof {
        assert(dec_u64_at(b@, 0) as nat == gk);
        assert(1 <= gk && gk <= usize::MAX);
        assert(dec_entries(b@, 16, gk, n64 as nat) == Some((pairs_of(entries@), pos as int)));
    }
    if pos != blen {
        proof {
            assert(dec_model(b@) is None);
        }
        return Err(ModelError::PersistenceError);
    }
    let m = entries.len();
    let mut i: usize = 0;
    while i < m
        invariant
            blen == b@.len(),
            gk == k as nat,
            1 <= k,
            dec_u64_at(b@, 0) as nat == gk,
            dec_u64_at(b@, 8) == n64,
            blen >= 16,
            dec_entries(b@, 16, gk, n64 as nat) == Some((pairs_of(entries@), blen as int)),
            m == entries@.len(),
            i <= m,
            forall|p: int, q: int|
                0 <= p < q < i ==> (#[trigger] entries@[p]).state@ != (#[trigger] entries@[q]).state@,
        decreases m - i,
    {
        let mut j: usize = 0;
        while j < i
            invariant
                blen == b@.len(),
                gk == k as nat,
                1 <= k,
                dec_u64_at(b@, 0) as nat == gk,
                dec_u64_at(b@, 8) == n64,
                blen >= 16,
                dec_entries(b@, 16, gk, n64 as nat) == Some((pairs_of(entries@), blen as int)),
                m == entries@.len(),
                i < m,
                j <= i,
                forall|p: int| 0 <= p < j ==> (#[trigger] entries@[p]).state@ != entries@[i as int].state@,
            decreases i - j,
        {
            if seq_eq(&entries[j].state, &entries[i].state) {
                proof {
                    assert(pairs_of(entries@)[j as int].0 == pairs_of(entries@)[i as int].0);
                    assert(!distinct_pairs(pairs_of(entries@)));
                    assert(dec_model(b@) is None);
                }
                return Err(ModelError::PersistenceError);
            }
            j += 1;
        }
        i += 1;
    }
    proof {
        assert(distinct_pairs(pairs_of(entries@))) by {
            assert forall|p: int, q: int| 0 <= p < q < pairs_of(entries@).len() implies (#[trigger] pairs_of(
                entries@,
            )[p]).0 != (#[trigger] pairs_of(entries@)[q]).0 by {
                assert(entries@[p].state@ != entries@[q].state@);
            }
        }
        lemma_map_of_pairs(entries@);
    }
    let table = TransitionTable { order: k, entries };
    proof {
        assert(dec_model(b@) == Some((gk, map_of_pairs(pairs_of(table.entries@)))));
        assert(table.wf());
    }
    Ok(MarkovModel { transitions: table })
}

/// A window of a window of `b` is a window of `b`.
pub(crate) proof fn lemma_chunk(b: Seq<u8>, i: int, len: int, lo: int, hi: int)
    requires
        0 <= i,
        0 <= lo <= hi <= len,
        i + len <= b.len(),
    ensures
        b.subrange(i + lo, i + hi) == b.subrange(i, i + len).subrange(lo, hi),
{
    assert forall|m: int| 0 <= m < hi - lo implies #[trigger] b.subrange(i + lo, i + hi)[m]
        == b.subrange(i, i + len).subrange(lo, hi)[m] by {
        assert(b.subrange(i + lo, i + hi)[m] == b[i + lo + m]);
        assert(b.subrange(i, i + len)[lo + m] == b[i + lo + m]);
    }
    assert(b.subrange(i + lo, i + hi) =~= b.subrange(i, i + len).subrange(lo, hi));
}

/// Tokens encoded at position `i` parse back to themselves.
pub(crate) proof fn lemma_dec_tokens_of_enc(b: Seq<u8>, i: int, s: Seq<u32>)
    requires
        0 <= i,
        i + 4 * s.len() <= b.len(),
        b.subrange(i, i + 4 * s.len()) == enc_tokens(s),
    ensures
        dec_tokens(b, i, s.len()) == Some(s),
    decreases s.len(),
{
    vstd::bytes::lemma_auto_spec_u32_to_from_le_bytes();
    lemma_enc_tokens_len(s);
    if s.len() == 0 {
        assert(dec_tokens(b, i, 0) == Some(Seq::<u32>::empty()));
        assert(s =~= Seq::<u32>::empty());
    } else {
        let rest = s.drop_first();
        lemma_enc_tokens_len(rest);
        let len = 4 * s.len() as int;
        assert(enc_tokens(s) == spec_u32_to_le_bytes(s[0]) + enc_tokens(rest));
        lemma_chunk(b, i, len, 0, 4);
        assert(enc_tokens(s).subrange(0, 4) =~= spec_u32_to_le_bytes(s[0]));
        assert(b.subrange(i, i + 4) == spec_u32_to_le_bytes(s[0]));
        assert(dec_u32_at(b, i) == s[0]);
        lemma_chunk(b, i, len, 4, len);
        assert(enc_tokens(s).subrange(4, len) =~= enc_tokens(rest));
        assert(b.subrange(i + 4, i + 4 + 4 * rest.len()) == enc_tokens(rest));
        lemma_dec_tokens_of_enc(b, i + 4, rest);
        assert(seq![s[0]] + rest =~= s);
    }
}

/// Entries encoded at position `i` parse back to their pairs view.
pub(crate) proof fn lemma_dec_entries_of_enc(b: Seq<u8>, i: int, s: Seq<Entry>, k: nat)
    requires
        0 <= i,
        forall|t: int| 0 <= t < s.len() ==> (#[trigger] s[t]).state@.len() == k,
        forall|t: int| 0 <= t < s.len() ==> (#[trigger] s[t]).nexts@.len() >= 1,
        forall|t: int| 0 <= t < s.len() ==> (#[trigger] s[t]).nexts@.len() <= u64::MAX,
        i + enc_entries(s).len() <= b.len(),
        b.subrange(i, i + enc_entries(s).len()) == enc_entries(s),
    ensures
        dec_entries(b, i, k, s.len()) == Some((pairs_of(s), i + enc_entries(s).len())),
    decreases s.len(),
{
    vstd::bytes::lemma_auto_spec_u64_to_from_le_bytes();
    if s.len() == 0 {
        assert(pairs_of(s) =~= Seq::<(Seq<u32>, Seq<u32>)>::empty());
    } else {
        let e = s[0];
        let rest = s.drop_first();
        let st = e.state@;
        let nx = e.nexts@;
        lemma_enc_tokens_len(st);
        lemma_enc_tokens_len(nx);
        let elen = enc_entry(st, nx).len() as int;
        let len = enc_entries(s).len() as int;
        assert(enc_entries(s) == enc_entry(st, nx) + enc_entries(rest));
        assert(elen == 4 * k + 8 + 4 * nx.len());
        assert(len == elen + enc_entries(rest).len());
        lemma_chunk(b, i, len, 0, 4 * k as int);
        assert(enc_entries(s).subrange(0, 4 * k as int) =~= enc_tokens(st));
        assert(b.subrange(i, i + 4 * k) == enc_tokens(st));
        lemma_dec_tokens_of_enc(b, i, st);
        let p = i + 4 * (k as int);
        lemma_chunk(b, i, len, 4 * k as int, 4 * k as int + 8);
        assert(enc_entries(s).subrange(4 * k as int, 4 * k as int + 8) =~= spec_u64_to_le_bytes(
            nx.len() as u64,
        ));
        assert(b.subrange(p, p + 8) == spec_u64_to_le_bytes(nx.len() as u64));
        assert(dec_u64_at(b, p) == nx.len() as u64);
        assert(dec_u64_at(b, p) as nat == nx.len());
        lemma_chunk(b, i, len, 4 * k as int + 8, elen);
        assert(enc_entries(s).subrange(4 * k as int + 8, elen) =~= enc_tokens(nx));
        assert(b.subrange(p + 8, p + 8 + 4 * nx.len()) == enc_tokens(nx));
        lemma_dec_tokens_of_enc(b, p + 8, nx);
        assert(dec_entry(b, i, k) == Some(((st, nx), i + elen)));
        lemma_chunk(b, i, len, elen, len);
        assert(enc_entries(s).subrange(elen, len) =~= enc_entries(rest));
        assert(b.subrange(i + elen, i + elen + enc_entries(rest).len()) == enc_entries(rest));
        assert(forall|t: int| 0 <= t < rest.len() ==> rest[t] == s[t + 1]);
        lemma_dec_entries_of_enc(b, i + elen, rest, k);
        assert(pairs_of(s) =~= seq![(st, nx)] + pairs_of(rest));
    }
}

/// Round trip of the plain codec: a well-formed model's byte image decodes
/// to exactly its own order and transition mapping.
pub proof fn lemma_codec_round_trip(m: MarkovModel)
    requires
        m.wf(),
    ensures
        dec_model(enc_model(m)) == Some((m.order_spec(), m@)),
{
    vstd::bytes::lemma_auto_spec_u64_to_from_le_bytes();
    let b = enc_model(m);
    let es = m.transitions.entries@;
    assert(b.subrange(0, 8) =~= spec_u64_to_le_bytes(m.order_spec() as u64));
    assert(b.subrange(8, 16) =~= spec_u64_to_le_bytes(es.len() as u64));
    assert(dec_u64_at(b, 0) == m.order_spec() as u64);
    assert(dec_u64_at(b, 8) == es.len() as u64);
    assert(dec_u64_at(b, 0) as nat == m.order_spec());
    vstd::std_specs::vec::axiom_spec_len(&m.transitions.entries);
    assert(es.len() <= usize::MAX);
    assert(dec_u64_at(b, 8) as nat == es.len());
    assert forall|t: int| 0 <= t < es.len() implies (#[trigger] es[t]).nexts@.len()
        <= u64::MAX by {
        assert(es[t].nexts@.len() <= usize::MAX) by {
            vstd::std_specs::vec::axiom_spec_len(&es[t].nexts);
        }
    }
    assert(b.subrange(16, 16 + enc_entries(es).len() as int) =~= enc_entries(es));
    lemma_dec_entries_of_enc(b, 16, es, m.order_spec());
    assert(distinct_pairs(pairs_of(es))) by {
        assert forall|p: int, q: int| 0 <= p < q < pairs_of(es).len() implies (#[trigger] pairs_of(
            es,
        )[p]).0 != (#[trigger] pairs_of(es)[q]).0 by {
            assert(es[p].state@ != es[q].state@);
        }
    }
    lemma_map_of_pairs(es);
    assert(b.len() == 16 + enc_entries(es).len());
}

/// The plain (uncompressed) byte image of a model.
pub fn encode_model(m: &MarkovModel) -> (r: Vec<u8>)
    requires
        m.wf(),
    ensures
        r@ == enc_model(*m),
{
    let mut out: Vec<u8> = Vec::new();
    let mut hdr = vstd::bytes::u64_to_le_bytes(m.transitions.order as u64);
    out.append(&mut hdr);
    let mut cnt = vstd::bytes::u64_to_le_bytes(m.transitions.entries.len() as u64);
    out.append(&mut cnt);
    let ghost prefix = out@;
    let n = m.transitions.entries.len();
    let mut i: usize = 0;
    proof {
        assert(m.transitions.entries@.subrange(0, 0) =~= Seq::<Entry>::empty());
        assert(out@ + enc_entries(m.transitions.entries@.subrange(0, 0)) =~= out@);
    }
    while i < n
        invariant
            n == m.transitions.entries@.len(),
            i <= n,
            out@ == prefix + enc_entries(m.transitions.entries@.subrange(0, i as int)),
        decreases n - i,
    {
        let e = &m.transitions.entries[i];
        let ghost out0 = out@;
        push_tokens(&mut out, &e.state);
        let mut ln = vstd::bytes::u64_to_le_bytes(e.nexts.len() as u64);
        out.append(&mut ln);
        push_tokens(&mut out, &e.nexts);
        proof {
            assert(out@ =~= out0 + enc_entry(e.state@, e.nexts@));
            lemma_enc_entries_snoc(
                m.transitions.entries@.subrange(0, i as int),
                m.transitions.entries@[i as int],
            );
            assert(m.transitions.entries@.subrange(0, i as int).push(
                m.transitions.entries@[i as int],
            ) =~= m.transitions.entries@.subrange(0, i as int + 1));
            assert(out@ =~= prefix + enc_entries(m.transitions.entries@.subrange(0, i as int + 1)));
        }
        i += 1;
    }
    proof {
        assert(m.transitions.entries@.subrange(0, n as int) =~= m.transitions.entries@);
        assert(out@ =~= enc_model(*m));
    }
    out
}

/// What `MarkovModel::load` makes of a persisted byte string: the (order,
/// table) it denotes, if it is one zstd frame around a well-formed image.
pub open spec fn load_spec(bytes: Seq<u8>) -> Option<(nat, Map<Seq<u32>, Seq<u32>>)> {
    match crate::compress::zstd_unframe_of(bytes) {
        Some(plain) => dec_model(plain),
        None => None,
    }
}

impl MarkovModel {
    /// Persist the model: the plain byte image, wrapped in one zstd frame.
    /// Saving always succeeds, and what it hands back, `load` reads back as
    /// exactly this model's order and transition mapping.
    pub fn save(&self) -> (r: Result<Vec<u8>, ModelError>)
        requires
            self.wf(),
        ensures
            r is Ok,
            r matches Ok(bytes) ==> load_spec(bytes@) == Some((self.order_spec(), self@)),
    {
        let plain = encode_model(self);
        let r = crate::compress::zstd_compress(&plain);
        proof {
            lemma_codec_round_trip(*self);
        }
        r
    }

    /// Reconstruct a model from persisted bytes; anything malformed yields
    /// `PersistenceError`.
    pub fn load(bytes: &Vec<u8>) -> (r: Result<MarkovModel, ModelError>)
        ensures
            r is Ok <==> load_spec(bytes@) is Some,
            r matches Ok(m) ==> m.wf() && load_spec(bytes@) == Some((m.order_spec(), m@)),
            r matches Err(e) ==> e == ModelError::PersistenceError,
    {
        match crate::compress::zstd_decompress(bytes) {
            Err(e) => Err(e),
            Ok(plain) => decode_model(&plain),
        }
    }
}

} // verus!
