//! A game of numbers: each number says how long ago the number before it
//! was said the time before.

use std::collections::HashMap;
use vstd::prelude::*;

verus! {

/// The state of the game: how many numbers have been said, the last of
/// them, and for each number said before it the turn at which it was said
/// last.
pub struct GameState {
    pub next_index: usize,
    pub last_number: usize,
    pub turn_map: HashMap<usize, usize>,
}

/// The index of the last of the first `upto` numbers of `h` that is `n`,
/// or -1 if none is.
pub open spec fn last_seen(h: Seq<usize>, n: usize, upto: int) -> int
    decreases upto,
{
    if upto <= 0 {
        -1
    } else if h[upto - 1] == n {
        upto - 1
    } else {
        last_seen(h, n, upto - 1)
    }
}

/// The number to say after the numbers `h`: how many turns ago the last
/// number was said the time before, or 0 if it was new.
pub open spec fn age(h: Seq<usize>) -> int {
    let i = last_seen(h, h.last(), h.len() - 1);
    if i < 0 {
        0
    } else {
        h.len() - 1 - i
    }
}

/// The numbers after `k` turns that begin with the numbers `start`.
pub open spec fn said(start: Seq<usize>, k: nat) -> Seq<usize>
    decreases k,
{
    if k <= start.len() {
        start.take(k as int)
    } else {
        let h = said(start, (k - 1) as nat);
        h.push(age(h) as usize)
    }
}

/// The last place at which a number is seen is a place of the list.
pub proof fn lemma_last_seen_bound(h: Seq<usize>, n: usize, upto: int)
    ensures
        -1 <= last_seen(h, n, upto) < upto || (upto <= 0 && last_seen(h, n, upto) == -1),
    decreases upto,
{
    if upto > 0 && h[upto - 1] != n {
        lemma_last_seen_bound(h, n, upto - 1);
    }
}

/// What lies beyond the numbers looked at does not count.
pub proof fn lemma_last_seen_prefix(h: Seq<usize>, g: Seq<usize>, n: usize, upto: int)
    requires
        0 <= upto <= h.len(),
        upto <= g.len(),
        forall|i: int| 0 <= i < upto ==> h[i] == g[i],
    ensures
        last_seen(h, n, upto) == last_seen(g, n, upto),
    decreases upto,
{
    if upto > 0 {
        lemma_last_seen_prefix(h, g, n, upto - 1);
    }
}

impl GameState {
    /// The state is that of a game in which the numbers `h` have been said.
    pub open spec fn tracks(&self, h: Seq<usize>) -> bool {
        &&& h.len() >= 1
        &&& self.next_index == h.len()
        &&& self.last_number == h.last()
        &&& forall|n: usize| #[trigger]
            self.turn_map@.contains_key(n) <==> last_seen(h, n, h.len() - 1) >= 0
        &&& forall|n: usize| #[trigger]
            self.turn_map@.contains_key(n) ==> self.turn_map@[n] == last_seen(h, n, h.len() - 1)
                + 1
    }

    /// The game after the numbers `input` have been said.
    pub fn new(input: &[usize]) -> (g: GameState)
        requires
            input@.len() >= 1,
        ensures
            g.tracks(input@),
    {
        broadcast use vstd::std_specs::hash::group_hash_axioms;

        let mut turn_map: HashMap<usize, usize> = HashMap::new();
        let next_index = input.len();
        let last_index = next_index - 1;
        let last_number = input[last_index];
        let mut i: usize = 0;
        while i < last_index
            invariant
                last_index == input@.len() - 1,
                i <= last_index,
                forall|n: usize| #[trigger]
                    turn_map@.contains_key(n) <==> last_seen(input@, n, i as int) >= 0,
                forall|n: usize| #[trigger]
                    turn_map@.contains_key(n) ==> turn_map@[n] == last_seen(input@, n, i as int) + 1,
            decreases last_index - i,
        {
            let n = input[i];
            turn_map.insert(n, i + 1);
            proof {
                assert forall|m: usize| last_seen(input@, m, i as int) >= -1 by {
                    lemma_last_seen_bound(input@, m, i as int);
                }
            }
            i += 1;
        }
        GameState { next_index, last_number, turn_map }
    }

    /// Says the next number.
    pub fn next(&mut self)
        requires
            old(self).next_index < usize::MAX,
            exists|h: Seq<usize>| old(self).tracks(h),
        ensures
            forall|h: Seq<usize>| old(self).tracks(h) ==> final(self).tracks(h.push(age(h) as usize)),
    {
        broadcast use vstd::std_specs::hash::group_hash_axioms;

        let ghost before = *self;
        let n = match self.turn_map.get(&self.last_number) {
            Some(index) => {
                proof {
                    let h = choose|h: Seq<usize>| before.tracks(h);
                    lemma_last_seen_bound(h, before.last_number, h.len() - 1);
                }
                self.next_index - *index
            },
            None => 0,
        };
        self.turn_map.insert(self.last_number, self.next_index);
        self.last_number = n;
        self.next_index += 1;
        proof {
            assert forall|h: Seq<usize>| before.tracks(h) implies self.tracks(
                h.push(age(h) as usize),
            ) by {
                let g = h.push(age(h) as usize);
                lemma_last_seen_bound(h, h.last(), h.len() - 1);
                assert(n == age(h));
                assert forall|m: usize| #[trigger]
                    self.turn_map@.contains_key(m) <==> last_seen(g, m, g.len() - 1) >= 0 by {
                    lemma_last_seen_prefix(h, g, m, h.len() - 1);
                    lemma_last_seen_bound(h, m, h.len() - 1);
                    assert(g[h.len() - 1] == h.last());
                }
                assert forall|m: usize| #[trigger]
                    self.turn_map@.contains_key(m) implies self.turn_map@[m] == last_seen(
                    g,
                    m,
                    g.len() - 1,
                ) + 1 by {
                    lemma_last_seen_prefix(h, g, m, h.len() - 1);
                    assert(g[h.len() - 1] == h.last());
                }
            }
        }
    }

    /// Says numbers until `turn_index` numbers have been said.
    pub fn advance_to(&mut self, turn_index: usize)
        requires
            exists|h: Seq<usize>| old(self).tracks(h),
        ensures
            forall|h: Seq<usize>|
                old(self).tracks(h) ==> final(self).tracks(
                    said(
                        h,
                        if turn_index >= h.len() {
                            turn_index as nat
                        } else {
                            h.len()
                        },
                    ),
                ),
    {
        let ghost before = *self;
        let ghost start = self.next_index;
        proof {
            assert forall|h: Seq<usize>| before.tracks(h) implies self.tracks(
                said(h, self.next_index as nat),
            ) by {
                assert(h.take(h.len() as int) =~= h);
            }
        }
        while self.next_index < turn_index
            invariant
                start <= self.next_index,
                start == before.next_index,
                self.next_index <= turn_index || self.next_index == start,
                exists|h: Seq<usize>| before.tracks(h),
                forall|h: Seq<usize>|
                    before.tracks(h) ==> self.tracks(said(h, self.next_index as nat)),
            decreases turn_index - self.next_index,
        {
            let ghost prior = *self;
            proof {
                let h = choose|h: Seq<usize>| before.tracks(h);
                assert(prior.tracks(said(h, prior.next_index as nat)));
            }
            self.next();
            proof {
                assert forall|h: Seq<usize>| before.tracks(h) implies self.tracks(
                    said(h, self.next_index as nat),
                ) by {
                    let g = said(h, prior.next_index as nat);
                    assert(prior.tracks(g));
                    assert(self.tracks(g.push(age(g) as usize)));
                    assert(h.len() == start);
                }
            }
        }
    }
}

} // verus!
