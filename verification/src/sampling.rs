//! Seeded sampling of training actions: a xorshift generator, and a
//! bounded set of legal actions that always keeps the one played.

use vstd::prelude::*;

use crate::rules::Action;
use crate::search::{ranked, sort_ranked};

verus! {

/// One xorshift step.
pub open spec fn xorshift_next(value: u64) -> u64 {
    let a = value ^ (value << 7u64);
    let b = a ^ (a >> 9u64);
    b ^ (b << 8u64)
}

/// A 64-bit xorshift generator; its state is never zero.
pub struct Rng(u64);

impl Rng {
    pub closed spec fn spec_state(&self) -> u64 {
        self.0
    }

    /// A generator seeded with `seed`, or with one for a zero seed.
    pub fn new(seed: u64) -> (r: Self)
        ensures
            r.spec_state() == if seed == 0 {
                1
            } else {
                seed
            },
    {
        Rng(if seed == 0 {
            1
        } else {
            seed
        })
    }

    pub fn next_u64(&mut self) -> (r: u64)
        ensures
            r == xorshift_next(old(self).spec_state()),
            final(self).spec_state() == r,
    {
        let mut value = self.0;
        value = value ^ (value << 7u64);
        value = value ^ (value >> 9u64);
        value = value ^ (value << 8u64);
        self.0 = value;
        value
    }

    /// An index below `length`, from the next output.
    pub fn index(&mut self, length: usize) -> (r: usize)
        requires
            length > 0,
        ensures
            r < length,
            r == (xorshift_next(old(self).spec_state()) as usize) % length,
            final(self).spec_state() == xorshift_next(old(self).spec_state()),
    {
        (self.next_u64() as usize) % length
    }
}

/// Whether an action differs from `chosen`.
pub open spec fn not_chosen(chosen: Action) -> spec_fn(Action) -> bool {
    |a: Action| a != chosen
}

/// The actions of `legal` other than `chosen`.
pub open spec fn others(legal: Seq<Action>, chosen: Action) -> Seq<Action> {
    legal.filter(not_chosen(chosen))
}

/// `count` draws without replacement from `pool`, the generator starting at
/// `state`: each draw takes the entry at the next output modulo the pool's
/// length and moves the pool's last entry into its place. Gives the drawn
/// actions, the pool left, and the generator's state after the draws.
pub open spec fn sample_draws(pool: Seq<Action>, state: u64, count: nat) -> (Seq<Action>, Seq<Action>, u64)
    decreases count,
{
    if count == 0 {
        (Seq::empty(), pool, state)
    } else {
        let (drawn, left, current) = sample_draws(pool, state, (count - 1) as nat);
        let next = xorshift_next(current);
        let index = ((next as usize) % (left.len() as usize)) as int;
        (drawn.push(left[index]), left.update(index, left.last()).drop_last(), next)
    }
}

/// Up to `limit` actions for a training record: all of `legal` when it is
/// that short; otherwise `chosen` and actions drawn from the rest without
/// replacement, in action order.
pub fn sample_actions(legal: &[Action], chosen: Action, limit: usize, rng: &mut Rng) -> (r: Vec<Action>)
    requires
        legal@.len() <= limit || others(legal@, chosen).len() + 1 >= limit,
    ensures
        legal@.len() <= limit ==> r@ == legal@,
        legal@.len() > limit ==> {
            &&& r@.len() == if limit == 0 {
                1
            } else {
                limit as int
            }
            &&& r@.contains(chosen)
            &&& forall|i: int| 0 <= i < r@.len() ==> #[trigger] r@[i] == chosen || legal@.contains(r@[i])
            &&& forall|i: int, j: int| 0 <= i < j < r@.len() ==> (#[trigger] r@[i]).spec_order() <= (#[trigger] r@[j]).spec_order()
            &&& forall|x: Action| #[trigger] r@.contains(x) <==> (x == chosen || sample_draws(
                others(legal@, chosen),
                old(rng).spec_state(),
                (r@.len() - 1) as nat,
            ).0.contains(x))
            &&& final(rng).spec_state() == sample_draws(
                others(legal@, chosen),
                old(rng).spec_state(),
                (r@.len() - 1) as nat,
            ).2
        },
        legal@.len() <= limit ==> final(rng).spec_state() == old(rng).spec_state(),
{
    if legal.len() <= limit {
        let mut copy: Vec<Action> = Vec::new();
        let mut i: usize = 0;
        while i < legal.len()
            invariant
                i <= legal@.len(),
                copy@ == legal@.take(i as int),
            decreases legal@.len() - i,
        {
            copy.push(legal[i]);
            proof {
                assert(copy@ =~= legal@.take(i as int + 1));
            }
            i = i + 1;
        }
        proof {
            assert(legal@.take(legal@.len() as int) =~= legal@);
        }
        return copy;
    }
    let ghost pred = not_chosen(chosen);
    let mut remaining: Vec<Action> = Vec::new();
    let mut i: usize = 0;
    while i < legal.len()
        invariant
            i <= legal@.len(),
            pred == not_chosen(chosen),
            remaining@ == legal@.take(i as int).filter(pred),
        decreases legal@.len() - i,
    {
        proof {
            assert(legal@.take(i as int + 1) =~= legal@.take(i as int).push(legal@[i as int]));
            legal@.take(i as int).lemma_filter_push(legal@[i as int], pred);
        }
        if legal[i] != chosen {
            remaining.push(legal[i]);
        }
        i = i + 1;
    }
    proof {
        assert(legal@.take(legal@.len() as int) =~= legal@);
        legal@.filter_lemma(pred);
        assert forall|k: int| 0 <= k < remaining@.len() implies legal@.contains(#[trigger] remaining@[k]) by {
            lemma_filter_member(legal@, pred, k);
        }
    }
    let mut selected: Vec<Action> = Vec::new();
    selected.push(chosen);
    let ghost pool = remaining@;
    let ghost seed = rng.spec_state();
    proof {
        assert(pool =~= others(legal@, chosen));
        assert(selected@.drop_first() =~= Seq::<Action>::empty());
    }
    while selected.len() < limit
        invariant
            pool == others(legal@, chosen),
            seed == old(rng).spec_state(),
            sample_draws(pool, seed, (selected@.len() - 1) as nat) == (
                selected@.drop_first(),
                remaining@,
                rng.spec_state(),
            ),
            remaining@.len() + selected@.len() >= limit,
            selected@.len() >= 1,
            selected@.len() <= if limit == 0 {
                1
            } else {
                limit as int
            },
            selected@[0] == chosen,
            forall|k: int| 0 <= k < remaining@.len() ==> legal@.contains(#[trigger] remaining@[k]),
            forall|k: int| 0 <= k < selected@.len() ==> #[trigger] selected@[k] == chosen || legal@.contains(selected@[k]),
        decreases limit - selected@.len(),
    {
        let ghost count = (selected@.len() - 1) as nat;
        let index = rng.index(remaining.len());
        let ghost before = remaining@;
        let action = remaining.swap_remove(index);
        proof {
            assert(remaining@ =~= before.update(index as int, before.last()).drop_last());
            assert(selected@.push(action).drop_first() =~= selected@.drop_first().push(action));
            assert forall|k: int| 0 <= k < remaining@.len() implies legal@.contains(#[trigger] remaining@[k]) by {
                if k == index as int {
                    assert(remaining@[k] == before.last());
                    assert(legal@.contains(before[before.len() - 1]));
                } else {
                    assert(remaining@[k] == before[k]);
                }
            }
        }
        selected.push(action);
    }
    let mut pairs: Vec<(Action, i32)> = Vec::new();
    let mut j: usize = 0;
    while j < selected.len()
        invariant
            j <= selected@.len(),
            pairs@ == selected@.take(j as int).map_values(|a: Action| (a, 0i32)),
        decreases selected@.len() - j,
    {
        pairs.push((selected[j], 0i32));
        proof {
            assert(pairs@ =~= selected@.take(j as int + 1).map_values(|a: Action| (a, 0i32)));
        }
        j = j + 1;
    }
    proof {
        assert(selected@.take(selected@.len() as int) =~= selected@);
    }
    let sorted = sort_ranked(&pairs, false, true);
    let mut result: Vec<Action> = Vec::new();
    let mut k: usize = 0;
    while k < sorted.len()
        invariant
            k <= sorted@.len(),
            result@ == sorted@.take(k as int).map_values(|p: (Action, i32)| p.0),
        decreases sorted@.len() - k,
    {
        result.push(sorted[k].0);
        proof {
            assert(result@ =~= sorted@.take(k as int + 1).map_values(|p: (Action, i32)| p.0));
        }
        k = k + 1;
    }
    proof {
        broadcast use vstd::seq_lib::group_to_multiset_ensures;

        assert(sorted@.take(sorted@.len() as int) =~= sorted@);
        assert(pairs@.len() == selected@.len());
        assert forall|a: int| 0 <= a < result@.len() implies #[trigger] result@[a] == chosen || legal@.contains(result@[a]) by {
            assert(sorted@.to_multiset().count(sorted@[a]) > 0);
            assert(pairs@.contains(sorted@[a]));
            let p = choose|p: int| 0 <= p < pairs@.len() && pairs@[p] == sorted@[a];
            assert(pairs@[p] == (selected@[p], 0i32));
        }
        assert(pairs@[0] == (chosen, 0i32));
        assert(pairs@.to_multiset().count((chosen, 0i32)) > 0);
        assert(sorted@.contains((chosen, 0i32)));
        let c = choose|c: int| 0 <= c < sorted@.len() && sorted@[c] == (chosen, 0i32);
        assert(result@[c] == chosen);
        assert(result@.len() == selected@.len());
        assert forall|x: Action| #[trigger] result@.contains(x) <==> selected@.contains(x) by {
            if result@.contains(x) {
                let a = choose|a: int| 0 <= a < result@.len() && result@[a] == x;
                assert(sorted@.to_multiset().count(sorted@[a]) > 0);
                assert(pairs@.contains(sorted@[a]));
                let p = choose|p: int| 0 <= p < pairs@.len() && pairs@[p] == sorted@[a];
                assert(pairs@[p] == (selected@[p], 0i32));
                assert(selected@[p] == x);
            }
            if selected@.contains(x) {
                let p = choose|p: int| 0 <= p < selected@.len() && selected@[p] == x;
                assert(pairs@[p] == (x, 0i32));
                assert(pairs@.to_multiset().count((x, 0i32)) > 0);
                assert(sorted@.contains((x, 0i32)));
                let c = choose|c: int| 0 <= c < sorted@.len() && sorted@[c] == (x, 0i32);
                assert(result@[c] == x);
            }
        }
        assert forall|x: Action| selected@.contains(x) <==> (x == chosen
            || selected@.drop_first().contains(x)) by {
            if selected@.contains(x) && x != chosen {
                let p = choose|p: int| 0 <= p < selected@.len() && selected@[p] == x;
                assert(selected@.drop_first()[p - 1] == x);
            }
            if selected@.drop_first().contains(x) {
                let p = choose|p: int|
                    0 <= p < selected@.drop_first().len() && selected@.drop_first()[p] == x;
                assert(selected@[p + 1] == x);
            }
        }
        assert forall|a: int, b: int| 0 <= a < b < result@.len() implies (#[trigger] result@[a]).spec_order() <= (#[trigger] result@[b]).spec_order() by {
            assert(!crate::search::precedes(sorted@[b], sorted@[a], false, true));
            assert(sorted@.to_multiset().count(sorted@[a]) > 0);
            assert(sorted@.to_multiset().count(sorted@[b]) > 0);
            assert(pairs@.contains(sorted@[a]));
            assert(pairs@.contains(sorted@[b]));
            let p = choose|p: int| 0 <= p < pairs@.len() && pairs@[p] == sorted@[a];
            let q = choose|q: int| 0 <= q < pairs@.len() && pairs@[q] == sorted@[b];
            assert(pairs@[p].1 == 0 && pairs@[q].1 == 0);
        }
    }
    result
}

/// Every entry of a filter is an entry of the original.
proof fn lemma_filter_member(s: Seq<Action>, pred: spec_fn(Action) -> bool, k: int)
    requires
        0 <= k < s.filter(pred).len(),
    ensures
        s.contains(s.filter(pred)[k]),
    decreases s.len(),
{
    reveal(Seq::filter);
    if s.len() > 0 {
        let sub = s.drop_last().filter(pred);
        if k < sub.len() {
            lemma_filter_member(s.drop_last(), pred, k);
            let j = choose|j: int| 0 <= j < s.drop_last().len() && s.drop_last()[j] == sub[k];
            assert(s[j] == s.filter(pred)[k]);
        } else {
            assert(s[s.len() - 1] == s.filter(pred)[k]);
        }
    }
}

} // verus!
