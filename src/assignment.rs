use crate::error::RoomError;
use vstd::prelude::*;

verus! {

/// The texts of a list of strings.
pub open spec fn texts(v: Seq<String>) -> Seq<Seq<char>> {
    v.map_values(|s: String| s@)
}

/// The (player, word) texts of a list of pairs.
pub open spec fn pair_texts(v: Seq<(String, String)>) -> Seq<(Seq<char>, Seq<char>)> {
    v.map_values(|p: (String, String)| (p.0@, p.1@))
}

/// The words of `s` without repeats, each at its first occurrence.
pub open spec fn distinct_of(s: Seq<Seq<char>>) -> Seq<Seq<char>>
    decreases s.len(),
{
    if s.len() == 0 {
        Seq::empty()
    } else {
        let d = distinct_of(s.drop_last());
        if d.contains(s.last()) {
            d
        } else {
            d.push(s.last())
        }
    }
}

/// Pairs `order` with words: the first `ceil(n/2)` players get `a`, the
/// remaining `floor(n/2)` get `b`.
pub open spec fn split_pairs(a: Seq<char>, b: Seq<char>, order: Seq<Seq<char>>) -> Seq<
    (Seq<char>, Seq<char>),
> {
    Seq::new(order.len(), |i: int| (order[i], if i < (order.len() + 1) / 2 { a } else { b }))
}

/// `perm` lists every index below `n` exactly once.
pub open spec fn is_index_permutation(perm: Seq<usize>, n: nat) -> bool {
    &&& perm.len() == n
    &&& forall|i: int| 0 <= i < n ==> perm[i] < n
    &&& perm.no_duplicates()
}

/// `players` reordered by `perm`.
pub open spec fn permuted(players: Seq<Seq<char>>, perm: Seq<usize>) -> Seq<Seq<char>> {
    perm.map_values(|j: usize| players[j as int])
}

/// `pairs` is the split of `players`, reordered by `perm`, between the two
/// different pool words `a` and `b`.
pub open spec fn is_split_by(
    pairs: Seq<(Seq<char>, Seq<char>)>,
    players: Seq<Seq<char>>,
    pool: Seq<Seq<char>>,
    a: Seq<char>,
    b: Seq<char>,
    perm: Seq<usize>,
) -> bool {
    &&& pool.contains(a)
    &&& pool.contains(b)
    &&& a != b
    &&& is_index_permutation(perm, players.len())
    &&& pairs == split_pairs(a, b, permuted(players, perm))
}

/// `pairs` is one of the assignments a round may deal: some shuffle of
/// `players` split between two different words of `pool`.
pub open spec fn is_round_split(
    pairs: Seq<(Seq<char>, Seq<char>)>,
    players: Seq<Seq<char>>,
    pool: Seq<Seq<char>>,
) -> bool {
    exists|a: Seq<char>, b: Seq<char>, perm: Seq<usize>|
        #[trigger] is_split_by(pairs, players, pool, a, b, perm)
}

/// Relies on rand's `seq::index::sample`: `amount` distinct indices below
/// `length`, in random order; it panics when `amount > length`.
#[verifier::external_body]
fn draw_indices(length: usize, amount: usize) -> (r: Vec<usize>)
    requires
        amount <= length,
    ensures
        r@.len() == amount,
        forall|i: int| 0 <= i < amount ==> r@[i] < length,
        r@.no_duplicates(),
{
    rand::seq::index::sample(&mut rand::thread_rng(), length, amount).into_vec()
}

/// The words of `words` without repeats, in order of first occurrence.
pub fn distinct_words(words: &Vec<String>) -> (r: Vec<String>)
    ensures
        texts(r@) == distinct_of(texts(words@)),
        texts(r@).no_duplicates(),
        forall|x: Seq<char>| texts(r@).contains(x) <==> texts(words@).contains(x),
{
    let ghost all = texts(words@);
    let mut r: Vec<String> = Vec::new();
    let mut i: usize = 0;
    while i < words.len()
        invariant
            i <= words.len(),
            all == texts(words@),
            texts(r@) == distinct_of(all.take(i as int)),
            texts(r@).no_duplicates(),
            forall|x: Seq<char>| texts(r@).contains(x) <==> all.take(i as int).contains(x),
        decreases words.len() - i,
    {
        let w = &words[i];
        let mut found = false;
        let mut j: usize = 0;
        while j < r.len()
            invariant
                j <= r.len(),
                found <==> exists|k: int| 0 <= k < j && r@[k]@ == w@,
            decreases r.len() - j,
        {
            if r[j] == *w {
                found = true;
            }
            j += 1;
        }
        let ghost prev = r@;
        assert(all.take(i + 1).drop_last() =~= all.take(i as int));
        assert(all.take(i + 1).last() == w@);
        if found {
            proof {
                let k = choose|k: int| 0 <= k < r@.len() && #[trigger] r@[k]@ == w@;
                assert(texts(r@)[k] == w@);
            }
            assert(texts(r@).contains(w@));
        } else {
            r.push(w.clone());
            assert(texts(r@) =~= texts(prev).push(w@));
            assert forall|k: int| 0 <= k < texts(prev).len() implies texts(prev)[k] != w@ by {
                assert(prev[k]@ == texts(prev)[k]);
            }
            assert(texts(r@)[prev.len() as int] == w@);
            assert(texts(r@).contains(w@));
            assert forall|x: Seq<char>| texts(prev).contains(x) implies texts(r@).contains(x) by {
                let k = choose|k: int| 0 <= k < prev.len() && #[trigger] texts(prev)[k] == x;
                assert(texts(r@)[k] == x);
            }
        }
        assert(forall|x: Seq<char>| #[trigger] texts(prev).contains(x) ==> texts(r@).contains(x));
        assert forall|x: Seq<char>| #[trigger] all.take(i + 1).contains(x) implies texts(
            r@,
        ).contains(x) by {
            let k = choose|k: int| 0 <= k < i + 1 && #[trigger] all.take(i + 1)[k] == x;
            if k < i {
                assert(all.take(i as int)[k] == x);
                assert(all.take(i as int).contains(x));
                assert(texts(prev).contains(x));
            } else {
                assert(x == w@);
            }
        }
        assert forall|x: Seq<char>| #[trigger] texts(r@).contains(x) implies all.take(
            i + 1,
        ).contains(x) by {
            if x == w@ {
                assert(all.take(i + 1)[i as int] == x);
            } else {
                assert(texts(prev).contains(x));
                assert(all.take(i as int).contains(x));
                let k = choose|k: int| 0 <= k < i && #[trigger] all.take(i as int)[k] == x;
                assert(all.take(i + 1)[k] == x);
            }
        }
        i += 1;
    }
    assert(all.take(words@.len() as int) =~= all);
    r
}

/// The (player, word) pairs dealt for a round, in dealing order.
pub struct Assignments {
    pub pairs: Vec<(String, String)>,
}

impl View for Assignments {
    type V = Seq<(Seq<char>, Seq<char>)>;

    open spec fn view(&self) -> Seq<(Seq<char>, Seq<char>)> {
        pair_texts(self.pairs@)
    }
}

impl Assignments {
    /// An assignment with no pair.
    pub fn new() -> (r: Assignments)
        ensures
            r@ == Seq::<(Seq<char>, Seq<char>)>::empty(),
    {
        Assignments { pairs: Vec::new() }
    }

    /// Appends the pairs of `players`, reordered by `perm`, with the words
    /// `pool[pick_a]` (first `ceil(n/2)` players) and `pool[pick_b]` (the rest).
    pub fn assign_drawn(
        &mut self,
        pool: &Vec<String>,
        players: &Vec<String>,
        pick_a: usize,
        pick_b: usize,
        perm: &Vec<usize>,
    )
        requires
            pick_a < pool@.len(),
            pick_b < pool@.len(),
            is_index_permutation(perm@, players@.len()),
        ensures
            final(self)@ == old(self)@ + split_pairs(
                pool@[pick_a as int]@,
                pool@[pick_b as int]@,
                permuted(texts(players@), perm@),
            ),
    {
        let ghost before = self@;
        let ghost dealt = split_pairs(
            pool@[pick_a as int]@,
            pool@[pick_b as int]@,
            permuted(texts(players@), perm@),
        );
        let n = perm.len();
        let half = n - n / 2;
        let mut k: usize = 0;
        while k < n
            invariant
                k <= n,
                n == perm@.len(),
                half == (n + 1) / 2,
                pick_a < pool@.len(),
                pick_b < pool@.len(),
                is_index_permutation(perm@, players@.len()),
                dealt == split_pairs(
                    pool@[pick_a as int]@,
                    pool@[pick_b as int]@,
                    permuted(texts(players@), perm@),
                ),
                self@ == before + dealt.take(k as int),
            decreases n - k,
        {
            let player = players[perm[k]].clone();
            let word = if k < half {
                pool[pick_a].clone()
            } else {
                pool[pick_b].clone()
            };
            let ghost prev = self.pairs@;
            self.pairs.push((player, word));
            assert(pair_texts(self.pairs@) =~= pair_texts(prev).push(dealt[k as int]));
            assert(dealt.take(k + 1) =~= dealt.take(k as int).push(dealt[k as int]));
            k += 1;
        }
        assert(dealt.take(n as int) =~= dealt);
    }

    /// Appends a fresh round's pairs: two different words drawn at random
    /// from `words`, and `players` shuffled at random, the first `ceil(n/2)`
    /// of them with the first word and the rest with the second. Fails,
    /// changing nothing, when `words` holds fewer than two distinct words.
    pub fn assign_random_words(&mut self, words: &Vec<String>, players: &Vec<String>) -> (r:
        Result<(), RoomError>)
        ensures
            r is Err <==> distinct_of(texts(words@)).len() < 2,
            r is Err ==> r == Err::<(), RoomError>(RoomError::InsufficientPool) && final(self)@
                == old(self)@,
            r is Ok ==> final(self)@.len() >= old(self)@.len() && final(self)@.take(
                old(self)@.len() as int,
            ) == old(self)@ && is_round_split(
                final(self)@.skip(old(self)@.len() as int),
                texts(players@),
                texts(words@),
            ),
    {
        let pool = distinct_words(words);
        if pool.len() < 2 {
            return Err(RoomError::InsufficientPool);
        }
        let picks = draw_indices(pool.len(), 2);
        let perm = draw_indices(players.len(), players.len());
        let ghost before = self@;
        self.assign_drawn(&pool, players, picks[0], picks[1], &perm);
        proof {
            let a = pool@[picks@[0] as int]@;
            let b = pool@[picks@[1] as int]@;
            assert(texts(pool@)[picks@[0] as int] == a);
            assert(texts(pool@)[picks@[1] as int] == b);
            assert(texts(pool@).contains(a));
            assert(texts(pool@).contains(b));
            assert(self@.take(before.len() as int) =~= before);
            assert(self@.skip(before.len() as int) =~= split_pairs(a, b, permuted(texts(players@), perm@)));
            assert(is_split_by(self@.skip(before.len() as int), texts(players@), texts(words@), a, b, perm@));
        }
        Ok(())
    }

    /// A copy of this assignment, pair by pair.
    pub fn snapshot(&self) -> (r: Assignments)
        ensures
            r@ == self@,
    {
        let mut pairs: Vec<(String, String)> = Vec::new();
        let mut i: usize = 0;
        while i < self.pairs.len()
            invariant
                i <= self.pairs@.len(),
                pair_texts(pairs@) == self@.take(i as int),
            decreases self.pairs@.len() - i,
        {
            let ghost prev = pairs@;
            pairs.push((self.pairs[i].0.clone(), self.pairs[i].1.clone()));
            assert(pair_texts(pairs@) =~= pair_texts(prev).push(self@[i as int]));
            assert(self@.take(i + 1) =~= self@.take(i as int).push(self@[i as int]));
            i += 1;
        }
        assert(self@.take(self@.len() as int) =~= self@);
        Assignments { pairs }
    }

    /// Drops every pair whose player is `player`, keeping the others in order.
    pub fn remove_player(&mut self, player: &str)
        ensures
            final(self)@ == old(self)@.filter(|p: (Seq<char>, Seq<char>)| p.0 != player@),
    {
        let ghost all = self@;
        let target = String::from_str(player);
        let mut kept: Vec<(String, String)> = Vec::new();
        let mut i: usize = 0;
        while i < self.pairs.len()
            invariant
                i <= self.pairs@.len(),
                all == self@,
                target@ == player@,
                pair_texts(kept@) == all.take(i as int).filter(|p: (Seq<char>, Seq<char>)| p.0 != player@),
            decreases self.pairs@.len() - i,
        {
            let ghost prev = kept@;
            assert(all.take(i + 1) =~= all.take(i as int).push(all[i as int]));
            proof {
                all.take(i as int).lemma_filter_push(
                    all[i as int],
                    |p: (Seq<char>, Seq<char>)| p.0 != player@,
                );
            }
            assert(all[i as int] == (self.pairs@[i as int].0@, self.pairs@[i as int].1@));
            if !(self.pairs[i].0 == target) {
                assert(all[i as int].0 != player@);
                kept.push((self.pairs[i].0.clone(), self.pairs[i].1.clone()));
                assert(pair_texts(kept@) =~= pair_texts(prev).push(all[i as int]));
            }
            i += 1;
        }
        assert(all.take(all.len() as int) =~= all);
        self.pairs = kept;
    }
}

} // verus!
