use vstd::prelude::*;

verus! {

use crate::ModelError;
use crate::table::{TransitionTable, copy_range, record_spec};
use crate::tokenizer::{Tokenizer, tokens_of, encodable_of, decoded_of, decodable_of};
use crate::sampler::Sampler;

/// The table after sliding the training window over the first `i` windows of
/// `t`: window `j` pairs the state `t[j .. j+k]` with the next token `t[j+k]`.
pub open spec fn trained_upto(
    m: Map<Seq<u32>, Seq<u32>>,
    t: Seq<u32>,
    k: nat,
    i: nat,
) -> Map<Seq<u32>, Seq<u32>>
    decreases i,
{
    if i == 0 {
        m
    } else {
        record_spec(
            trained_upto(m, t, k, (i - 1) as nat),
            t.subrange(i - 1, i - 1 + k),
            t[i - 1 + k as int],
        )
    }
}

/// The table after training on the whole token sequence `t`: a no-op when `t`
/// offers no window of `k + 1` tokens, otherwise all `t.len() - k` windows.
pub open spec fn trained(m: Map<Seq<u32>, Seq<u32>>, t: Seq<u32>, k: nat) -> Map<
    Seq<u32>,
    Seq<u32>,
> {
    if t.len() <= k {
        m
    } else {
        trained_upto(m, t, k, (t.len() - k) as nat)
    }
}

/// What one generation walk may produce: `out` extends `seed` by at most
/// `length` tokens, each drawn from the recorded successors of the `k` tokens
/// before it; the walk stops short of `length` only where the current state
/// has no recorded successor, and a seed state never seen yields the seed
/// alone.
pub open spec fn valid_walk(
    m: Map<Seq<u32>, Seq<u32>>,
    k: nat,
    seed: Seq<u32>,
    out: Seq<u32>,
    length: nat,
) -> bool {
    &&& out.len() >= k
    &&& out.len() <= k + length
    &&& out.subrange(0, k as int) == seed
    &&& forall|i: int|
        k <= i < out.len() ==> m.dom().contains(#[trigger] out.subrange(i - k, i))
            && m[out.subrange(i - k, i)].contains(out[i])
    &&& out.len() < k + length ==> !m.dom().contains(
        out.subrange(out.len() - k, out.len() as int),
    )
    &&& !m.dom().contains(seed) ==> out == seed
}

/// A fixed-order Markov chain model: learns, from token sequences, which
/// token follows each run of `order` tokens, and samples continuations.
pub struct MarkovModel {
    pub(crate) transitions: TransitionTable,
}

impl View for MarkovModel {
    type V = Map<Seq<u32>, Seq<u32>>;

    open(crate) spec fn view(&self) -> Map<Seq<u32>, Seq<u32>> {
        self.transitions@
    }
}

impl MarkovModel {
    pub open(crate) spec fn order_spec(self) -> nat {
        self.transitions.order_spec()
    }

    pub open(crate) spec fn total_spec(self) -> nat {
        self.transitions.total_spec()
    }

    pub open(crate) spec fn wf(self) -> bool {
        self.transitions.wf()
    }

    /// A fresh, empty model; `order == 0` is rejected.
    pub fn new(order: usize) -> (r: Result<MarkovModel, ModelError>)
        ensures
            order == 0 <==> r is Err,
            r matches Err(e) ==> e == ModelError::InvalidConfiguration,
            r matches Ok(m) ==> m.wf() && m.order_spec() == order && m@ == Map::<
                Seq<u32>,
                Seq<u32>,
            >::empty() && m.total_spec() == 0,
    {
        match TransitionTable::new(order) {
            Ok(t) => Ok(MarkovModel { transitions: t }),
            Err(e) => Err(e),
        }
    }

    /// The number of prior tokens that form a state.
    pub fn order(&self) -> (r: usize)
        ensures
            r == self.order_spec(),
    {
        self.transitions.order
    }

    /// How many distinct states the model has seen.
    pub fn key_count(&self) -> (r: usize)
        requires
            self.wf(),
        ensures
            r == self@.dom().len(),
    {
        self.transitions.key_count()
    }

    /// The recorded successors of `state`, if that state was ever seen.
    pub fn lookup(&self, state: &Vec<u32>) -> (r: Option<&Vec<u32>>)
        requires
            self.wf(),
        ensures
            match r {
                Some(v) => self@.dom().contains(state@) && v@ == self@[state@] && v@.len() >= 1,
                None => !self@.dom().contains(state@),
            },
    {
        self.transitions.lookup(state)
    }

    /// Record every sliding window of `tokens`.  A sequence of at most
    /// `order` tokens offers no window and leaves the model unchanged;
    /// a longer one adds exactly `tokens.len() - order` occurrences.
    pub fn train_tokens(&mut self, tokens: &Vec<u32>)
        requires
            old(self).wf(),
        ensures
            final(self).wf(),
            final(self).order_spec() == old(self).order_spec(),
            final(self)@ == trained(old(self)@, tokens@, old(self).order_spec()),
            tokens@.len() <= old(self).order_spec() ==> final(self)@ == old(self)@
                && final(self).total_spec() == old(self).total_spec(),
            tokens@.len() > old(self).order_spec() ==> final(self).total_spec()
                == old(self).total_spec() + tokens@.len() - old(self).order_spec(),
    {
        let k = self.transitions.order;
        let n = tokens.len();
        if n <= k {
            return ;
        }
        let count = n - k;
        let mut j: usize = 0;
        while j < count
            invariant
                self.wf(),
                self.order_spec() == old(self).order_spec(),
                k == old(self).order_spec(),
                n == tokens@.len(),
                count == n - k,
                n > k,
                j <= count,
                self@ == trained_upto(old(self)@, tokens@, k as nat, j as nat),
                self.total_spec() == old(self).total_spec() + j,
            decreases count - j,
        {
            let state = copy_range(tokens, j, k);
            let next = tokens[j + k];
            self.transitions.record(&state, next);
            proof {
                assert(trained_upto(old(self)@, tokens@, k as nat, (j + 1) as nat) == record_spec(
                    trained_upto(old(self)@, tokens@, k as nat, j as nat),
                    tokens@.subrange(j as int, j as int + k as int),
                    tokens@[j as int + k as int],
                ));
            }
            j += 1;
        }
    }

    /// Tokenize `text` and train on the resulting sequence.  A text the
    /// tokenizer cannot encode is reported and leaves the model unchanged.
    pub fn train(&mut self, tok: &Tokenizer, text: &str) -> (r: Result<(), ModelError>)
        requires
            old(self).wf(),
        ensures
            final(self).wf(),
            final(self).order_spec() == old(self).order_spec(),
            r is Ok <==> encodable_of(text@),
            r matches Err(e) ==> e == ModelError::TokenizationFailure && final(self)@
                == old(self)@ && final(self).total_spec() == old(self).total_spec(),
            r is Ok ==> final(self)@ == trained(
                old(self)@,
                tokens_of(text@),
                old(self).order_spec(),
            ),
            r is Ok && tokens_of(text@).len() <= old(self).order_spec() ==> final(self)@
                == old(self)@,
            r is Ok && tokens_of(text@).len() > old(self).order_spec() ==> final(self).total_spec()
                == old(self).total_spec() + tokens_of(text@).len() - old(self).order_spec(),
    {
        match tok.encode(text) {
            Ok(tokens) => {
                self.train_tokens(&tokens);
                Ok(())
            },
            Err(e) => Err(e),
        }
    }

    /// The verified stochastic walk: extend `seed` by up to `length` tokens
    /// drawn from the recorded successors of each state in turn.
    pub fn generate_tokens(&self, seed: &Vec<u32>, length: usize, sampler: &mut Sampler) -> (r:
        Result<Vec<u32>, ModelError>)
        requires
            self.wf(),
        ensures
            seed@.len() != self.order_spec() <==> r is Err,
            r matches Err(e) ==> e == ModelError::SeedLengthMismatch,
            r matches Ok(out) ==> valid_walk(
                self@,
                self.order_spec(),
                seed@,
                out@,
                length as nat,
            ),
    {
        let k = self.transitions.order;
        if seed.len() != k {
            return Err(ModelError::SeedLengthMismatch);
        }
        let mut state = copy_range(seed, 0, k);
        let mut out = copy_range(seed, 0, k);
        proof {
            assert(state@ =~= seed@);
            assert(out@ =~= seed@);
        }
        let mut steps: usize = 0;
        let mut blocked = false;
        while steps < length && !blocked
            invariant
                self.wf(),
                k == self.order_spec(),
                k >= 1,
                seed@.len() == k,
                state@.len() == k,
                steps <= length,
                out@.len() == k + steps,
                out@.subrange(0, k as int) == seed@,
                state@ == out@.subrange(out@.len() - k, out@.len() as int),
                forall|i: int|
                    k <= i < out@.len() ==> self@.dom().contains(
                        #[trigger] out@.subrange(i - k, i),
                    ) && self@[out@.subrange(i - k, i)].contains(out@[i]),
                blocked ==> !self@.dom().contains(state@),
                steps == 0 ==> out@ == seed@,
            decreases length - steps, (if blocked { 0int } else { 1int }),
        {
            match self.transitions.lookup(&state) {
                None => {
                    blocked = true;
                },
                Some(nexts) => {
                    let idx = sampler.next_below(nexts.len());
                    let tkn = nexts[idx];
                    let ghost out0 = out@;
                    let ghost st0 = state@;
                    out.push(tkn);
                    state.remove(0);
                    state.push(tkn);
                    proof {
                        let ln = out0.len() as int;
                        assert(self@[st0][idx as int] == tkn);
                        assert(self@[st0].contains(tkn));
                        assert(out@.subrange(0, k as int) =~= out0.subrange(0, k as int));
                        assert(state@ =~= out@.subrange(ln + 1 - k, ln + 1));
                        assert(out@.subrange(ln - k, ln) =~= st0);
                        assert forall|i: int| k <= i < out@.len() implies self@.dom().contains(
                            #[trigger] out@.subrange(i - k, i),
                        ) && self@[out@.subrange(i - k, i)].contains(out@[i]) by {
                            if i < ln {
                                assert(out@.subrange(i - k, i) =~= out0.subrange(i - k, i));
                                assert(out@[i] == out0[i]);
                            } else {
                                assert(i == ln);
                                assert(out@.subrange(i - k, i) =~= st0);
                                assert(out@[i] == tkn);
                            }
                        }
                    }
                    steps += 1;
                },
            }
        }
        proof {
            if !self@.dom().contains(seed@) {
                if steps > 0 {
                    assert(self@.dom().contains(out@.subrange(k as int - k, k as int)));
                    assert(out@.subrange(0, k as int) == seed@);
                    assert(false);
                }
            }
        }
        Ok(out)
    }

    /// Tokenize the seed, require exactly `order` tokens, walk, and decode.
    /// The result begins with the seed text; the walk's tokens always decode
    /// when they are the seed alone, so a decoding failure can only come
    /// from tokens the walk appended.
    pub fn generate(&self, tok: &Tokenizer, start: &str, length: usize, sampler: &mut Sampler) -> (r:
        Result<String, ModelError>)
        requires
            self.wf(),
        ensures
            (r matches Err(e) && e == ModelError::SeedLengthMismatch) <==> (encodable_of(start@)
                && tokens_of(start@).len() != self.order_spec()),
            !encodable_of(start@) ==> (r matches Err(e) && e == ModelError::TokenizationFailure),
            r matches Err(e) ==> e == ModelError::SeedLengthMismatch
                || e == ModelError::TokenizationFailure,
            (r matches Err(e) && e == ModelError::TokenizationFailure) ==> !encodable_of(start@)
                || (tokens_of(start@).len() == self.order_spec() && exists|out: Seq<u32>|
                valid_walk(self@, self.order_spec(), tokens_of(start@), out, length as nat)
                    && !decodable_of(out)),
            r matches Ok(text) ==> encodable_of(start@) && tokens_of(start@).len()
                == self.order_spec() && start@.is_prefix_of(text@) && exists|out: Seq<u32>|
                valid_walk(self@, self.order_spec(), tokens_of(start@), out, length as nat)
                    && decodable_of(out) && text@ == decoded_of(out),
    {
        let seed = match tok.encode(start) {
            Ok(ids) => ids,
            Err(e) => {
                return Err(e);
            },
        };
        match self.generate_tokens(&seed, length, sampler) {
            Err(e) => Err(e),
            Ok(out) => {
                let ghost k = self.order_spec() as int;
                let r = tok.decode(&out);
                proof {
                    assert(valid_walk(self@, self.order_spec(), seed@, out@, length as nat));
                    assert(out@.subrange(0, k) == seed@);
                }
                match r {
                    Ok(text) => {
                        proof {
                            assert(decodable_of(out@.subrange(0, k)));
                            assert(decoded_of(out@.subrange(0, k)).is_prefix_of(text@));
                            assert(valid_walk(
                                self@,
                                self.order_spec(),
                                tokens_of(start@),
                                out@,
                                length as nat,
                            ) && decodable_of(out@) && text@ == decoded_of(out@));
                        }
                        Ok(text)
                    },
                    Err(e) => {
                        proof {
                            assert(valid_walk(
                                self@,
                                self.order_spec(),
                                tokens_of(start@),
                                out@,
                                length as nat,
                            ) && !decodable_of(out@));
                        }
                        Err(e)
                    },
                }
            },
        }
    }
}

} // verus!
