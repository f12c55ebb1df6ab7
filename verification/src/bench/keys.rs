//! The keys of the benchmark.

use bytes::Bytes;
use rand_xorshift::XorShiftRng;
use std::sync::Arc;
use vstd::prelude::*;

use super::rng::{
    fill_bytes,
    fill_draw,
    next_word,
    random_below,
    range_draw,
    rng_from,
    rng_state,
    seeded_state,
    word_draw,
};
use crate::octets::{bytes_of, content, contents, share};

verus! {

/// Maximum number of randomly generated keys to keep track of for reuse in
/// [`RandomKeyGenerator`]. Once this limit is reached, newly generated keys
/// will replace a randomly selected existing key.
pub const MAX_RANDOM_USED_KEYS: usize = 10_000;

/// A key generator that generates keys for the benchmarker.
pub trait KeyGenerator: Sized {
    /// What the generator rests on.
    type State;

    /// The state of the generator.
    spec fn state(&self) -> Self::State;

    /// The generator can give a key.
    spec fn ready(&self) -> bool;

    /// The generator can give `key`.
    spec fn gives(state: Self::State, key: Seq<u8>) -> bool;

    /// The next key, and the state after it.
    spec fn next(state: Self::State) -> (Seq<u8>, Self::State);

    /// A used key, and the state after it.
    spec fn used(state: Self::State) -> (Seq<u8>, Self::State);

    /// Generate and return the next key that should be used in the workload.
    fn next_key(&mut self) -> (key: Bytes)
        requires
            old(self).ready(),
        ensures
            (content(key), final(self).state()) == Self::next(old(self).state()),
            Self::gives(old(self).state(), content(key)),
            forall|k: Seq<u8>| #[trigger]
                Self::gives(final(self).state(), k) == Self::gives(old(self).state(), k),
            final(self).ready(),
    ;

    /// Return one of the previously generated keys at random. If no keys have
    /// been generated yet, this method falls back to [`Self::next_key`], so
    /// that a valid key is always returned.
    fn used_key(&mut self) -> (key: Bytes)
        requires
            old(self).ready(),
        ensures
            (content(key), final(self).state()) == Self::used(old(self).state()),
            Self::gives(old(self).state(), content(key)),
            forall|k: Seq<u8>| #[trigger]
                Self::gives(final(self).state(), k) == Self::gives(old(self).state(), k),
            final(self).ready(),
    ;
}

// ---------------------------------------------------------------------------
// Random keys
// ---------------------------------------------------------------------------

/// A key generator that generates random keys of a fixed length.
pub struct RandomKeyGenerator {
    pub key_len_bytes: usize,
    pub rng: XorShiftRng,
    pub used_keys: Vec<Bytes>,
}

/// What a [`RandomKeyGenerator`] rests on.
pub struct RandomState {
    pub key_len: nat,
    pub rng: Seq<u32>,
    pub used: Seq<Seq<u8>>,
}

impl RandomState {
    /// The state with one more used key. The list stays bounded: a key at the
    /// limit replaces a random one.
    pub open spec fn track(self, key: Seq<u8>) -> Self {
        if self.used.len() < MAX_RANDOM_USED_KEYS {
            RandomState { used: self.used.push(key), ..self }
        } else {
            let (i, rng) = range_draw(self.rng, self.used.len() as usize);
            RandomState { used: self.used.update(i as int, key), rng, ..self }
        }
    }

    /// The next key, and the state after it.
    pub open spec fn generate(self) -> (Seq<u8>, Self) {
        let (key, rng) = fill_draw(self.rng, self.key_len);
        (key, RandomState { rng, ..self }.track(key))
    }

    /// The state after `n` keys, and the keys.
    pub open spec fn generate_many(self, n: nat) -> (Seq<Seq<u8>>, Self)
        decreases n,
    {
        if n == 0 {
            (Seq::empty(), self)
        } else {
            let (keys, before) = self.generate_many((n - 1) as nat);
            let (key, after) = before.generate();
            (keys.push(key), after)
        }
    }
}

/// Each key has `len` bytes.
pub open spec fn keys_of_len(keys: Seq<Seq<u8>>, len: nat) -> bool {
    forall|i: int| 0 <= i < keys.len() ==> (#[trigger] keys[i]).len() == len
}

impl RandomKeyGenerator {
    /// A generator of keys of `key_bytes` bytes. With a seed, the generator
    /// returns the same keys on each run.
    pub fn new(key_bytes: usize, seed: Option<u64>) -> (generator: Self)
        requires
            key_bytes <= isize::MAX,
        ensures
            generator.ready(),
            generator.state().key_len == key_bytes,
            generator.state().used == Seq::<Seq<u8>>::empty(),
            seed matches Some(seed) ==> generator.state().rng == seeded_state(seed),
    {
        let generator = RandomKeyGenerator {
            key_len_bytes: key_bytes,
            rng: rng_from(seed),
            used_keys: Vec::new(),
        };
        assert(contents(generator.used_keys@) =~= Seq::<Seq<u8>>::empty());
        generator
    }
}

impl KeyGenerator for RandomKeyGenerator {
    type State = RandomState;

    open spec fn state(&self) -> RandomState {
        RandomState {
            key_len: self.key_len_bytes as nat,
            rng: rng_state(self.rng),
            used: contents(self.used_keys@),
        }
    }

    open spec fn ready(&self) -> bool {
        &&& self.key_len_bytes <= isize::MAX
        &&& self.used_keys@.len() <= MAX_RANDOM_USED_KEYS
        &&& keys_of_len(contents(self.used_keys@), self.key_len_bytes as nat)
    }

    /// Each key has the length of the generator.
    open spec fn gives(state: RandomState, key: Seq<u8>) -> bool {
        key.len() == state.key_len
    }

    open spec fn next(state: RandomState) -> (Seq<u8>, RandomState) {
        state.generate()
    }

    open spec fn used(state: RandomState) -> (Seq<u8>, RandomState) {
        if state.used.len() == 0 {
            state.generate()
        } else {
            let (i, rng) = range_draw(state.rng, state.used.len() as usize);
            (state.used[i as int], RandomState { rng, ..state })
        }
    }

    fn next_key(&mut self) -> Bytes {
        let ghost used = contents(self.used_keys@);
        let bytes = fill_bytes(&mut self.rng, self.key_len_bytes);
        let key = bytes_of(bytes.as_slice());
        if self.used_keys.len() < MAX_RANDOM_USED_KEYS {
            self.used_keys.push(share(&key));
            assert(contents(self.used_keys@) =~= used.push(content(key)));
        } else {
            let idx: usize = random_below(&mut self.rng, self.used_keys.len());
            self.used_keys.set(idx, share(&key));
            assert(contents(self.used_keys@) =~= used.update(idx as int, content(key)));
        }
        key
    }

    /// A used key is one of the keys of before, if there are any.
    fn used_key(&mut self) -> (key: Bytes)
        ensures
            old(self).state().used.len() > 0 ==> old(self).state().used.contains(content(key)),
    {
        if self.used_keys.len() == 0 {
            return self.next_key();
        }
        let idx: usize = random_below(&mut self.rng, self.used_keys.len());
        assert(contents(self.used_keys@)[idx as int] == content(self.used_keys@[idx as int]));
        share(&self.used_keys[idx])
    }
}

// ---------------------------------------------------------------------------
// A fixed set of keys
// ---------------------------------------------------------------------------

/// A key generator over a fixed set of keys.
pub struct FixedSetKeyGenerator {
    /// Shared between the tasks. A set of 10M keys takes about 1 GiB.
    pub keys: Arc<Vec<Bytes>>,
    pub rng: XorShiftRng,
    pub used_keys: Vec<Bytes>,
    /// The walk over the set, or `None` for random picks. See [`Self::walk`].
    pub walk: Option<Walk>,
    /// The Zipf thresholds over the key ranks, or `None` for uniform picks.
    /// See [`Self::with_zipf`].
    pub zipf: Option<Arc<Vec<u64>>>,
}

/// A walk over the fixed set. Task `start` of `stride` tasks visits the keys
/// `start`, `start + stride`, `start + 2 * stride`, and so on.
#[derive(Clone, Copy, Debug, PartialEq, Eq, Structural)]
pub struct Walk {
    pub next: usize,
    pub stride: usize,
}

/// What a [`FixedSetKeyGenerator`] rests on.
pub struct FixedSetState {
    pub keys: Seq<Seq<u8>>,
    pub rng: Seq<u32>,
    pub used: Seq<Seq<u8>>,
    pub walk: Option<Walk>,
    pub zipf: Option<Seq<u64>>,
}

/// The key that a walk visits next, in a set of `len` keys.
pub open spec fn walk_at(walk: Walk, len: nat) -> int {
    walk.next as int % len as int
}

/// The walk after one key. It goes around at the end of the set.
pub open spec fn walk_on(walk: Walk, len: nat) -> Walk {
    Walk { next: ((walk.next + walk.stride) % len as int) as usize, ..walk }
}

/// The number of thresholds below `draw`.
pub open spec fn rank_of(thresholds: Seq<u64>, draw: u64) -> nat
    decreases thresholds.len(),
{
    if thresholds.len() == 0 || thresholds[0] >= draw {
        0
    } else {
        1 + rank_of(thresholds.skip(1), draw)
    }
}

/// Thresholds that never go back.
pub open spec fn thresholds_in_order(thresholds: Seq<u64>) -> bool {
    forall|i: int, j: int| 0 <= i <= j < thresholds.len() ==> (#[trigger] thresholds[i]) <= (
    #[trigger] thresholds[j])
}

impl FixedSetState {
    /// The index of a pick from the whole set, and the generator after it. A
    /// Zipf pick draws 53 random bits and counts the thresholds below them.
    pub open spec fn pick(self) -> (int, Seq<u32>) {
        match self.zipf {
            Some(thresholds) => {
                let (word, rng) = word_draw(self.rng);
                let rank = rank_of(thresholds, word / 2048);
                (
                    if rank < self.keys.len() {
                        rank as int
                    } else {
                        self.keys.len() - 1
                    },
                    rng,
                )
            },
            None => {
                let (i, rng) = range_draw(self.rng, self.keys.len() as usize);
                (i as int, rng)
            },
        }
    }

    /// The next key, and the state after it.
    pub open spec fn generate(self) -> (Seq<u8>, Self) {
        match self.walk {
            Some(walk) => (
                self.keys[walk_at(walk, self.keys.len())],
                FixedSetState { walk: Some(walk_on(walk, self.keys.len())), ..self },
            ),
            None => {
                let (i, rng) = range_draw(self.rng, self.keys.len() as usize);
                let key = self.keys[i as int];
                (key, FixedSetState { rng, used: self.used.push(key), ..self })
            },
        }
    }

    /// The state after `n` keys, and the keys.
    pub open spec fn generate_many(self, n: nat) -> (Seq<Seq<u8>>, Self)
        decreases n,
    {
        if n == 0 {
            (Seq::empty(), self)
        } else {
            let (keys, before) = self.generate_many((n - 1) as nat);
            let (key, after) = before.generate();
            (keys.push(key), after)
        }
    }
}

/// Each of the keys `some` is one of `all`.
pub open spec fn all_among(some: Seq<Seq<u8>>, all: Seq<Seq<u8>>) -> bool {
    forall|i: int| 0 <= i < some.len() ==> all.contains(#[trigger] some[i])
}

/// How to recognise the rank of a draw.
proof fn lemma_rank_of(thresholds: Seq<u64>, draw: u64, n: int)
    requires
        0 <= n <= thresholds.len(),
        forall|i: int| 0 <= i < n ==> (#[trigger] thresholds[i]) < draw,
        n < thresholds.len() ==> thresholds[n] >= draw,
    ensures
        rank_of(thresholds, draw) == n,
    decreases thresholds.len(),
{
    if n > 0 {
        assert(thresholds[0] < draw);
        let rest = thresholds.skip(1);
        assert forall|i: int| 0 <= i < n - 1 implies (#[trigger] rest[i]) < draw by {
            assert(rest[i] == thresholds[i + 1]);
        }
        if n < thresholds.len() {
            assert(rest[n - 1] == thresholds[n]);
        }
        lemma_rank_of(rest, draw, n - 1);
    }
}

/// The number of thresholds below `draw`.
fn count_below(thresholds: &Vec<u64>, draw: u64) -> (n: usize)
    requires
        thresholds_in_order(thresholds@),
    ensures
        n == rank_of(thresholds@, draw),
        n <= thresholds@.len(),
{
    let mut low: usize = 0;
    let mut high: usize = thresholds.len();
    while low < high
        invariant
            low <= high <= thresholds@.len(),
            thresholds_in_order(thresholds@),
            forall|i: int| 0 <= i < low ==> (#[trigger] thresholds@[i]) < draw,
            forall|i: int| high <= i < thresholds@.len() ==> (#[trigger] thresholds@[i]) >= draw,
        decreases high - low,
    {
        let mid: usize = low + (high - low) / 2;
        if thresholds[mid] < draw {
            assert forall|i: int| 0 <= i <= mid implies (#[trigger] thresholds@[i]) < draw by {
                assert(thresholds@[i] <= thresholds@[mid as int]);
            }
            low = mid + 1;
        } else {
            assert forall|i: int| mid <= i < thresholds@.len() implies (#[trigger] thresholds@[i])
                >= draw by {
                assert(thresholds@[mid as int] <= thresholds@[i]);
            }
            high = mid;
        }
    }
    proof {
        lemma_rank_of(thresholds@, draw, low as int);
    }
    low
}

impl FixedSetKeyGenerator {
    /// A generator over its own set. `set_seed` fixes the key set, and
    /// `pick_seed` fixes the order in which the generator picks from it.
    pub fn new(
        key_bytes: usize,
        key_count: u64,
        set_seed: Option<u64>,
        pick_seed: Option<u64>,
    ) -> (generator: Self)
        requires
            key_bytes <= isize::MAX,
            key_count <= usize::MAX,
        ensures
            is_key_set(generator.state().keys, key_bytes as nat, key_count as nat, set_seed),
            generator.state().used == Seq::<Seq<u8>>::empty(),
            generator.state().walk is None,
            generator.state().zipf is None,
            pick_seed matches Some(seed) ==> generator.state().rng == seeded_state(seed),
            generator.ready() <==> key_count > 0,
    {
        let keys = Self::key_set(key_bytes, key_count, set_seed);
        Self::from_set(keys, pick_seed)
    }

    /// The key set of `new`. Build it one time and pass it to `from_set` when
    /// more than one task reads the same set.
    pub fn key_set(key_bytes: usize, key_count: u64, set_seed: Option<u64>) -> (keys: Arc<
        Vec<Bytes>,
    >)
        requires
            key_bytes <= isize::MAX,
            key_count <= usize::MAX,
        ensures
            is_key_set(contents(keys@), key_bytes as nat, key_count as nat, set_seed),
            keys@.len() == key_count,
    {
        let mut generator = RandomKeyGenerator::new(key_bytes, set_seed);
        let ghost start = generator.state();
        let mut keys: Vec<Bytes> = Vec::new();
        assert(contents(keys@) =~= Seq::<Seq<u8>>::empty());
        for i in 0..key_count
            invariant
                key_count <= usize::MAX,
                generator.ready(),
                generator.state().key_len == key_bytes,
                keys@.len() == i,
                keys_of_len(contents(keys@), key_bytes as nat),
                (contents(keys@), generator.state()) == start.generate_many(i as nat),
        {
            let ghost before = contents(keys@);
            let key = generator.next_key();
            let ghost name = content(key);
            keys.push(key);
            assert(contents(keys@) =~= before.push(name));
        }
        assert(contents(keys@) == start.generate_many(key_count as nat).0);
        Arc::new(keys)
    }

    /// A generator over a shared key set. See [`Self::new`].
    pub fn from_set(keys: Arc<Vec<Bytes>>, pick_seed: Option<u64>) -> (generator: Self)
        ensures
            generator.state().keys == contents(keys@),
            generator.state().used == Seq::<Seq<u8>>::empty(),
            generator.state().walk is None,
            generator.state().zipf is None,
            pick_seed matches Some(seed) ==> generator.state().rng == seeded_state(seed),
            generator.ready() <==> keys@.len() > 0,
    {
        let generator = FixedSetKeyGenerator {
            keys,
            rng: rng_from(pick_seed),
            used_keys: Vec::new(),
            walk: None,
            zipf: None,
        };
        assert(contents(generator.used_keys@) =~= Seq::<Seq<u8>>::empty());
        generator
    }

    /// Makes `used_key` pick key `i` of the set with the probability of rank
    /// `i + 1`. Only a walk uses it. The set is random, so the hot keys spread
    /// over the whole key space.
    ///
    /// `thresholds[i]` is the probability of a rank at most `i + 1`, in units
    /// of one part in 2^53 and rounded down.
    pub fn with_zipf(self, thresholds: Arc<Vec<u64>>) -> (generator: Self)
        requires
            thresholds_in_order(thresholds@),
        ensures
            generator.ready() <==> self.state().keys.len() > 0 && all_among(
                self.state().used,
                self.state().keys,
            ),
            generator.state() == (FixedSetState { zipf: Some(thresholds@), ..self.state() }),
    {
        let mut generator = self;
        generator.zipf = Some(thresholds);
        generator
    }

    /// Makes the generator cover the whole set.
    ///
    /// `next_key` walks the set in order, so a load of `key_count` rows
    /// writes each key one time. With more than one task, task `start` of
    /// `stride` tasks walks its own slice. `used_key` picks from the whole
    /// set, so a read run after such a load reads every loaded key.
    pub fn walk(self, start: usize, stride: usize) -> (generator: Self)
        ensures
            generator.ready() == self.ready(),
            generator.state() == (FixedSetState {
                walk: Some(Walk { next: start, stride }),
                ..self.state()
            }),
    {
        let mut generator = self;
        generator.walk = Some(Walk { next: start, stride });
        generator
    }
}

/// The keys are a set of `count` random keys of `key_len` bytes. With a seed,
/// they rest on the seed alone.
pub open spec fn is_key_set(
    keys: Seq<Seq<u8>>,
    key_len: nat,
    count: nat,
    seed: Option<u64>,
) -> bool {
    &&& keys.len() == count
    &&& keys_of_len(keys, key_len)
    &&& exists|start: RandomState|
        start.key_len == key_len && start.used == Seq::<Seq<u8>>::empty() && (seed matches Some(
            seed,
        ) ==> start.rng == seeded_state(seed)) && keys == (#[trigger] start.generate_many(
            count,
        )).0
}

impl KeyGenerator for FixedSetKeyGenerator {
    type State = FixedSetState;

    open spec fn state(&self) -> FixedSetState {
        FixedSetState {
            keys: contents(self.keys@),
            rng: rng_state(self.rng),
            used: contents(self.used_keys@),
            walk: self.walk,
            zipf: match self.zipf {
                Some(thresholds) => Some(thresholds@),
                None => None,
            },
        }
    }

    open spec fn ready(&self) -> bool {
        &&& self.keys@.len() > 0
        &&& all_among(contents(self.used_keys@), contents(self.keys@))
        &&& self.zipf matches Some(thresholds) ==> thresholds_in_order(thresholds@)
    }

    /// Each key is one of the set.
    open spec fn gives(state: FixedSetState, key: Seq<u8>) -> bool {
        state.keys.contains(key)
    }

    open spec fn next(state: FixedSetState) -> (Seq<u8>, FixedSetState) {
        state.generate()
    }

    open spec fn used(state: FixedSetState) -> (Seq<u8>, FixedSetState) {
        if state.walk is Some {
            let (i, rng) = state.pick();
            (state.keys[i], FixedSetState { rng, ..state })
        } else if state.used.len() == 0 {
            state.generate()
        } else {
            let (i, rng) = range_draw(state.rng, state.used.len() as usize);
            (state.used[i as int], FixedSetState { rng, ..state })
        }
    }

    fn next_key(&mut self) -> Bytes {
        let n: usize = self.keys.len();
        if let Some(walk) = self.walk {
            let at: usize = walk.next % n;
            let key = share(&self.keys[at]);
            assert(contents(self.keys@)[at as int] == content(key));
            // The sum of the two offsets can pass the end of the numbers, so
            // it wraps around the set instead.
            let step: usize = walk.stride % n;
            let next: usize = if at < n - step {
                at + step
            } else {
                at - (n - step)
            };
            proof {
                lemma_walk_step(walk.next as int, walk.stride as int, n as int);
            }
            self.walk = Some(Walk { next, stride: walk.stride });
            return key;
        }
        let ghost used = contents(self.used_keys@);
        let index: usize = random_below(&mut self.rng, n);
        let key = share(&self.keys[index]);
        assert(contents(self.keys@)[index as int] == content(key));
        self.used_keys.push(share(&key));
        assert(contents(self.used_keys@) =~= used.push(content(key)));
        key
    }

    /// With no walk, a used key is one of the keys of before, if there are
    /// any.
    fn used_key(&mut self) -> (key: Bytes)
        ensures
            old(self).state().walk is None && old(self).state().used.len() > 0 ==> old(
                self,
            ).state().used.contains(content(key)),
    {
        let n: usize = self.keys.len();
        if self.walk.is_some() {
            let index: usize = match &self.zipf {
                Some(thresholds) => {
                    let word: u64 = next_word(&mut self.rng);
                    let rank: usize = count_below(thresholds, word / 2048);
                    if rank < n {
                        rank
                    } else {
                        n - 1
                    }
                },
                None => random_below(&mut self.rng, n),
            };
            assert(contents(self.keys@)[index as int] == content(self.keys@[index as int]));
            return share(&self.keys[index]);
        }
        if self.used_keys.len() == 0 {
            return self.next_key();
        }
        let idx: usize = random_below(&mut self.rng, self.used_keys.len());
        assert(contents(self.used_keys@)[idx as int] == content(self.used_keys@[idx as int]));
        share(&self.used_keys[idx])
    }
}

/// The next offset of a walk is the sum of the two offsets, around the set.
proof fn lemma_walk_step(next: int, stride: int, n: int)
    requires
        0 <= next,
        0 <= stride,
        0 < n,
    ensures
        (next + stride) % n == if next % n < n - stride % n {
            next % n + stride % n
        } else {
            next % n - (n - stride % n)
        },
{
    vstd::arithmetic::div_mod::lemma_add_mod_noop(next, stride, n);
    let sum = next % n + stride % n;
    if sum < n {
        vstd::arithmetic::div_mod::lemma_small_mod(sum as nat, n as nat);
    } else {
        vstd::arithmetic::div_mod::lemma_mod_sub_multiples_vanish(sum, n);
        vstd::arithmetic::div_mod::lemma_small_mod((sum - n) as nat, n as nat);
    }
}

// ---------------------------------------------------------------------------
// Laws
// ---------------------------------------------------------------------------

/// The keys that some calls give, and the state after them. A call asks for a
/// used key where `used` says so, and for the next key otherwise.
pub open spec fn given<G: KeyGenerator>(state: G::State, used: Seq<bool>) -> (
    Seq<Seq<u8>>,
    G::State,
)
    decreases used.len(),
{
    if used.len() == 0 {
        (Seq::empty(), state)
    } else {
        let (keys, before) = given::<G>(state, used.drop_last());
        let (key, after) = if used.last() {
            G::used(before)
        } else {
            G::next(before)
        };
        (keys.push(key), after)
    }
}

/// Two sets with the same seed, key length and key count are the same, in the
/// same order. The seed of the picks has no effect on the set.
pub proof fn law_the_set_rests_on_its_seed(
    first: Seq<Seq<u8>>,
    second: Seq<Seq<u8>>,
    key_len: nat,
    count: nat,
    set_seed: u64,
)
    requires
        is_key_set(first, key_len, count, Some(set_seed)),
        is_key_set(second, key_len, count, Some(set_seed)),
    ensures
        first == second,
{
    let a = choose|start: RandomState|
        start.key_len == key_len && start.used == Seq::<Seq<u8>>::empty() && start.rng
            == seeded_state(set_seed) && first == (#[trigger] start.generate_many(
            count,
        )).0;
    let b = choose|start: RandomState|
        start.key_len == key_len && start.used == Seq::<Seq<u8>>::empty() && start.rng
            == seeded_state(set_seed) && second == (#[trigger] start.generate_many(
            count,
        )).0;
    assert(a == b);
}

/// Two generators with the same seeds return the same keys, whatever calls of
/// `next_key` and `used_key` come: what they return rests on their state
/// alone, and a seed fixes the state.
pub proof fn law_same_seeds_give_the_same_keys(
    first: FixedSetKeyGenerator,
    second: FixedSetKeyGenerator,
    key_len: nat,
    count: nat,
    set_seed: u64,
    pick_seed: u64,
    n: nat,
    calls: Seq<bool>,
)
    requires
        is_key_set(first.state().keys, key_len, count, Some(set_seed)),
        is_key_set(second.state().keys, key_len, count, Some(set_seed)),
        first.state().rng == seeded_state(pick_seed),
        second.state().rng == seeded_state(pick_seed),
        first.state().used == second.state().used,
        first.state().walk == second.state().walk,
        first.state().zipf == second.state().zipf,
    ensures
        first.state() == second.state(),
        first.state().generate_many(n) == second.state().generate_many(n),
        given::<FixedSetKeyGenerator>(first.state(), calls) == given::<FixedSetKeyGenerator>(
            second.state(),
            calls,
        ),
{
    law_the_set_rests_on_its_seed(
        first.state().keys,
        second.state().keys,
        key_len,
        count,
        set_seed,
    );
    assert(first.state() == second.state());
}

/// Call `n` of a walk visits the key `start + n * stride`, around the set, and
/// a walk never touches the random numbers.
pub proof fn law_a_walk_visits_in_steps(
    generator: FixedSetState,
    start: usize,
    stride: usize,
    n: nat,
)
    requires
        generator.keys.len() > 0,
        generator.keys.len() <= usize::MAX,
        generator.walk == Some(Walk { next: start, stride }),
    ensures
        generator.generate_many(n).0.len() == n,
        forall|k: int|
            0 <= k < n ==> #[trigger] generator.generate_many(n).0[k] == generator.keys[(start + k
                * stride) % generator.keys.len() as int],
        generator.generate_many(n).1.keys == generator.keys,
        generator.generate_many(n).1.rng == generator.rng,
        generator.generate_many(n).1.walk matches Some(walk) && walk.stride == stride
            && walk.next as int % generator.keys.len() as int == (start + n * stride)
            % generator.keys.len() as int,
    decreases n,
{
    let len = generator.keys.len() as int;
    if n == 0 {
        assert(0 * stride == 0) by (nonlinear_arith);
    } else {
        let m = (n - 1) as nat;
        law_a_walk_visits_in_steps(generator, start, stride, m);
        let (keys, before) = generator.generate_many(m);
        let (key, after) = before.generate();
        let walk = before.walk->0;
        assert(key == generator.keys[(start + m * stride) % len]);
        assert((m + 1) * stride == m * stride + stride) by (nonlinear_arith);
        vstd::arithmetic::div_mod::lemma_add_mod_noop(walk.next as int, stride as int, len);
        vstd::arithmetic::div_mod::lemma_add_mod_noop(start + m * stride, stride as int, len);
        vstd::arithmetic::div_mod::lemma_mod_twice(walk.next + stride, len);
        let next = (walk.next + stride) % len;
        assert(0 <= next < len);
        assert(after.walk == Some(Walk { next: next as usize, stride }));
        assert forall|k: int| 0 <= k < n implies #[trigger] generator.generate_many(n).0[k]
            == generator.keys[(start + k * stride) % len] by {
            if k < m {
                assert(generator.generate_many(n).0[k] == keys[k]);
            }
        }
    }
}

/// How many keys of a set of `len` keys task `task` of `tasks` tasks visits.
pub open spec fn share_of(len: int, task: int, tasks: int) -> int {
    if task < len {
        (len - task + tasks - 1) / tasks
    } else {
        0
    }
}

/// The walks of all tasks cover the set one time: each key has exactly one
/// task and one call that visits it, when each task makes its share of calls.
pub proof fn law_the_walks_cover_the_set_one_time(len: int, tasks: int, i: int)
    requires
        0 < tasks,
        0 <= i < len,
    ensures
        0 <= i % tasks < tasks,
        0 <= i / tasks < share_of(len, i % tasks, tasks),
        (i % tasks + (i / tasks) * tasks) % len == i,
        forall|task: int, k: int|
            0 <= task < tasks && 0 <= k < share_of(len, task, tasks) && #[trigger] ((task + k
                * tasks) % len) == i ==> task == i % tasks && k == i / tasks,
{
    lemma_quotient_and_rest(i, tasks);
    let task = i % tasks;
    let k = i / tasks;
    assert(task + k * tasks == i);
    vstd::arithmetic::div_mod::lemma_small_mod(i as nat, len as nat);
    lemma_share(len, task, tasks, k);
    assert forall|t: int, c: int|
        0 <= t < tasks && 0 <= c < share_of(len, t, tasks) && #[trigger] ((t + c * tasks) % len)
            == i implies t == i % tasks && c == i / tasks by {
        lemma_share(len, t, tasks, c);
        let at = t + c * tasks;
        assert(c * tasks >= 0) by (nonlinear_arith)
            requires
                c >= 0,
                tasks > 0,
        ;
        vstd::arithmetic::div_mod::lemma_small_mod(at as nat, len as nat);
        assert(at == i);
        vstd::arithmetic::div_mod::lemma_fundamental_div_mod_converse(i, tasks, c, t);
    }
}

/// The tasks of a run walk one set: the generators are those that
/// [`super::args::KeySupplier::supply`] gives to tasks that walk all keys,
/// from the first task on. When each task makes its share of calls,
/// task `t` visits the keys `t`, `t + tasks`, `t + 2 * tasks` and so on, and
/// each key of the set is visited by exactly one call of one task.
pub proof fn law_the_tasks_walk_the_set_one_time(
    keys: Seq<Seq<u8>>,
    generators: Seq<FixedSetState>,
    tasks: usize,
)
    requires
        0 < keys.len() <= usize::MAX,
        generators.len() == tasks,
        tasks > 0,
        forall|t: int|
            0 <= t < tasks ==> (#[trigger] generators[t]).keys == keys && generators[t].walk
                == Some(Walk { next: t as usize, stride: tasks }),
    ensures
        forall|t: int, k: int|
            0 <= t < tasks && 0 <= k < share_of(keys.len() as int, t, tasks as int) ==> {
                &&& 0 <= #[trigger] visits(t, k, tasks as int) < keys.len()
                &&& generators[t].generate_many(
                    share_of(keys.len() as int, t, tasks as int) as nat,
                ).0[k] == keys[visits(t, k, tasks as int)]
            },
        forall|i: int|
            0 <= i < keys.len() ==> #[trigger] is_visited(keys.len() as int, tasks as int, i),
        forall|t: int, k: int, v: int, l: int|
            0 <= t < tasks && 0 <= k < share_of(keys.len() as int, t, tasks as int) && 0 <= v
                < tasks && 0 <= l < share_of(keys.len() as int, v, tasks as int)
                && #[trigger] visits(t, k, tasks as int) == #[trigger] visits(v, l, tasks as int)
                ==> t == v && k == l,
{
    let len = keys.len() as int;
    let n = tasks as int;
    assert forall|t: int, k: int| 0 <= t < n && 0 <= k < share_of(len, t, n) implies 0
        <= #[trigger] visits(t, k, n) < len by {
        lemma_share(len, t, n, k);
        assert(k * n >= 0) by (nonlinear_arith)
            requires
                k >= 0,
                n > 0,
        ;
    }
    assert forall|t: int, k: int| 0 <= t < n && 0 <= k < share_of(len, t, n) implies {
        &&& 0 <= #[trigger] visits(t, k, n) < len
        &&& generators[t].generate_many(share_of(len, t, n) as nat).0[k] == keys[visits(t, k, n)]
    } by {
        assert(0 <= visits(t, k, n) < len);
        law_a_walk_visits_in_steps(
            generators[t],
            t as usize,
            tasks,
            share_of(len, t, n) as nat,
        );
        vstd::arithmetic::div_mod::lemma_small_mod((t + k * n) as nat, len as nat);
    }
    assert forall|i: int| 0 <= i < len implies #[trigger] is_visited(len, n, i) by {
        law_the_walks_cover_the_set_one_time(len, n, i);
        lemma_quotient_and_rest(i, n);
        assert(visits(i % n, i / n, n) == i);
    }
    assert forall|t: int, k: int, v: int, l: int|
        0 <= t < n && 0 <= k < share_of(len, t, n) && 0 <= v < n && 0 <= l < share_of(len, v, n)
            && #[trigger] visits(t, k, n) == #[trigger] visits(v, l, n) implies t == v && k
        == l by {
        let i = visits(t, k, n);
        assert(0 <= i < len);
        law_the_walks_cover_the_set_one_time(len, n, i);
        vstd::arithmetic::div_mod::lemma_small_mod(i as nat, len as nat);
        assert((t + k * n) % len == i);
        assert((v + l * n) % len == i);
    }
}

/// The index that call `k` of task `t` of `tasks` tasks visits.
pub open spec fn visits(t: int, k: int, tasks: int) -> int {
    t + k * tasks
}

/// A call in the share of some task visits index `i`.
pub open spec fn is_visited(len: int, tasks: int, i: int) -> bool {
    exists|t: int, k: int|
        0 <= t < tasks && 0 <= k < share_of(len, t, tasks) && #[trigger] visits(t, k, tasks) == i
}

/// A number is its quotient times the divisor, plus its rest.
proof fn lemma_quotient_and_rest(i: int, tasks: int)
    requires
        0 < tasks,
        0 <= i,
    ensures
        i % tasks + (i / tasks) * tasks == i,
        0 <= i % tasks < tasks,
        0 <= i / tasks,
{
    vstd::arithmetic::div_mod::lemma_fundamental_div_mod(i, tasks);
    vstd::arithmetic::div_mod::lemma_mod_bound(i, tasks);
    vstd::arithmetic::div_mod::lemma_div_pos_is_pos(i, tasks);
    assert(tasks * (i / tasks) == (i / tasks) * tasks) by (nonlinear_arith);
}

/// Call `k` is in the share of a task exactly when it does not go around.
proof fn lemma_share(len: int, task: int, tasks: int, k: int)
    requires
        0 < tasks,
        0 <= task,
        0 <= k,
    ensures
        k < share_of(len, task, tasks) <==> task + k * tasks < len,
{
    assert(k * tasks >= 0) by (nonlinear_arith)
        requires
            k >= 0,
            tasks > 0,
    ;
    if task < len {
        let top = len - task + tasks - 1;
        let q = top / tasks;
        lemma_quotient_and_rest(top, tasks);
        let r = top % tasks;
        assert(r + q * tasks == top);
        if k < q {
            assert(k * tasks + tasks <= q * tasks) by (nonlinear_arith)
                requires
                    k + 1 <= q,
                    tasks > 0,
            ;
        } else {
            assert(k * tasks >= q * tasks) by (nonlinear_arith)
                requires
                    k >= q,
                    tasks > 0,
            ;
        }
    }
}

/// A random key is what the generator of the random numbers fills in next.
/// Below the limit it joins the used keys. At the limit it takes the place of
/// the used key that one more draw picks, and all others stay.
pub proof fn law_a_random_key_is_drawn_and_kept(state: RandomState)
    ensures
        ({
            let (key, rng) = fill_draw(state.rng, state.key_len);
            let after = state.generate().1;
            &&& state.generate().0 == key
            &&& RandomKeyGenerator::next(state) == (key, after)
            &&& after.key_len == state.key_len
            &&& state.used.len() < 10_000 ==> after.rng == rng && after.used == state.used.push(key)
            &&& state.used.len() >= 10_000 ==> {
                let (i, next) = range_draw(rng, state.used.len() as usize);
                &&& after.rng == next
                &&& i < state.used.len() ==> after.used.len() == state.used.len()
                    && after.used[i as int] == key && forall|j: int|
                    0 <= j < state.used.len() && j != i ==> #[trigger] after.used[j]
                        == state.used[j]
            }
        }),
{
}

/// Below the limit, the used keys of a random generator are those that it gave,
/// in order.
pub proof fn law_random_keys_are_kept_in_order(state: RandomState, n: nat)
    requires
        state.used.len() + n <= 10_000,
    ensures
        state.generate_many(n).0.len() == n,
        state.generate_many(n).1.used == state.used + state.generate_many(n).0,
        state.generate_many(n).1.key_len == state.key_len,
    decreases n,
{
    if n == 0 {
        assert(state.used + Seq::<Seq<u8>>::empty() =~= state.used);
    } else {
        let m = (n - 1) as nat;
        law_random_keys_are_kept_in_order(state, m);
        let (keys, before) = state.generate_many(m);
        let key = before.generate().0;
        assert((state.used + keys).push(key) =~= state.used + keys.push(key));
    }
}

/// The keys of many calls are the keys of fewer calls and then one more, from
/// the state that those left.
pub proof fn law_one_more_random_key(state: RandomState, n: nat)
    ensures
        state.generate_many(0) == (Seq::<Seq<u8>>::empty(), state),
        ({
            let (keys, before) = state.generate_many(n);
            let after = state.generate_many(n + 1);
            &&& after.0 == keys.push(fill_draw(before.rng, before.key_len).0)
            &&& after.1 == before.generate().1
        }),
{
}

/// A used key of a random generator is the one that a draw from the used keys
/// picks. It stays in the list. With no used key, the next key stands in.
pub proof fn law_a_used_random_key_is_picked(state: RandomState)
    ensures
        state.used.len() > 0 ==> {
            let (i, rng) = range_draw(state.rng, state.used.len() as usize);
            let (key, after) = RandomKeyGenerator::used(state);
            &&& key == state.used[i as int]
            &&& after.rng == rng
            &&& after.used == state.used
            &&& after.key_len == state.key_len
        },
        state.used.len() == 0 ==> RandomKeyGenerator::used(state) == RandomKeyGenerator::next(
            state,
        ),
{
}

/// With no walk, the next key of a fixed set is the one that a draw from the
/// whole set picks, and it joins the used keys. A used key is the one that a
/// draw from the used keys picks, and with none the next key stands in.
pub proof fn law_a_fixed_set_key_is_picked(state: FixedSetState)
    requires
        state.walk is None,
    ensures
        ({
            let (i, rng) = range_draw(state.rng, state.keys.len() as usize);
            let (key, after) = FixedSetKeyGenerator::next(state);
            &&& key == state.keys[i as int]
            &&& after.rng == rng
            &&& after.used == state.used.push(key)
            &&& after.keys == state.keys
            &&& after.walk is None
            &&& after.zipf == state.zipf
        }),
        state.used.len() > 0 ==> {
            let (i, rng) = range_draw(state.rng, state.used.len() as usize);
            let (key, after) = FixedSetKeyGenerator::used(state);
            &&& key == state.used[i as int]
            &&& after.rng == rng
            &&& after.used == state.used
            &&& after.keys == state.keys
            &&& after.walk is None
            &&& after.zipf == state.zipf
        },
        state.used.len() == 0 ==> FixedSetKeyGenerator::used(state) == FixedSetKeyGenerator::next(
            state,
        ),
{
}

/// With a walk, the next key is the one that the walk stands at, and the walk
/// goes on by its stride, around the set. A used key comes from the whole set,
/// and the walk stays where it is. Neither touches the used keys.
pub proof fn law_a_walk_and_its_picks_are_apart(state: FixedSetState, walk: Walk)
    requires
        0 < state.keys.len() <= usize::MAX,
        state.walk == Some(walk),
    ensures
        ({
            let len = state.keys.len() as int;
            let (key, after) = FixedSetKeyGenerator::next(state);
            &&& key == state.keys[walk.next as int % len]
            &&& after.walk matches Some(on) && on.stride == walk.stride && on.next == (walk.next
                + walk.stride) % len
            &&& after.keys == state.keys
            &&& after.rng == state.rng
            &&& after.used == state.used
            &&& after.zipf == state.zipf
        }),
        ({
            let (key, after) = FixedSetKeyGenerator::used(state);
            &&& key == state.keys[state.pick().0]
            &&& after.rng == state.pick().1
            &&& after.walk == state.walk
            &&& after.keys == state.keys
            &&& after.used == state.used
            &&& after.zipf == state.zipf
        }),
{
    vstd::arithmetic::div_mod::lemma_mod_bound(
        walk.next + walk.stride,
        state.keys.len() as int,
    );
}

/// A Zipf pick takes the upper 53 bits of a random word. It picks the key
/// whose rank is the number of thresholds below them, or the last key when
/// there is no such rank. A uniform pick draws from the whole set.
pub proof fn law_a_pick_is_the_rank_of_its_draw(state: FixedSetState, i: int)
    requires
        state.keys.len() > 0,
        state.zipf matches Some(thresholds) ==> thresholds_in_order(thresholds) && 0 <= i
            < thresholds.len(),
    ensures
        state.zipf matches Some(thresholds) ==> {
            let draw = word_draw(state.rng).0 / 2048;
            let rank = rank_of(thresholds, draw);
            &&& draw < 9_007_199_254_740_992
            &&& rank <= thresholds.len()
            &&& thresholds[i] < draw <==> i < rank
            &&& rank < state.keys.len() ==> state.pick().0 == rank
            &&& rank >= state.keys.len() ==> state.pick().0 == state.keys.len() - 1
            &&& state.pick().1 == word_draw(state.rng).1
        },
        state.zipf is None ==> {
            let (drawn, rng) = range_draw(state.rng, state.keys.len() as usize);
            state.pick().0 == drawn && state.pick().1 == rng
        },
{
    if let Some(thresholds) = state.zipf {
        let word = word_draw(state.rng).0;
        assert(word / 2048 < 9_007_199_254_740_992) by (nonlinear_arith)
            requires
                word <= u64::MAX,
        ;
        lemma_rank_splits(thresholds, word / 2048);
    }
}

/// The thresholds below a draw are those in front of its rank.
proof fn lemma_rank_splits(thresholds: Seq<u64>, draw: u64)
    requires
        thresholds_in_order(thresholds),
    ensures
        rank_of(thresholds, draw) <= thresholds.len(),
        forall|i: int|
            0 <= i < thresholds.len() ==> (#[trigger] thresholds[i] < draw <==> i < rank_of(
                thresholds,
                draw,
            )),
    decreases thresholds.len(),
{
    if thresholds.len() > 0 && thresholds[0] < draw {
        let rest = thresholds.skip(1);
        lemma_rank_splits(rest, draw);
        assert forall|i: int| 0 <= i < thresholds.len() implies (#[trigger] thresholds[i] < draw
            <==> i < rank_of(thresholds, draw)) by {
            if i > 0 {
                assert(rest[i - 1] == thresholds[i]);
            }
        }
    }
}

/// A key set with a seed is what a random generator with that seed gives: each
/// key is what the random numbers fill in after the keys before it, and the
/// first key comes straight from the seed.
pub proof fn law_a_key_set_is_drawn_from_its_seed(
    keys: Seq<Seq<u8>>,
    key_len: nat,
    count: nat,
    seed: u64,
    k: nat,
)
    requires
        is_key_set(keys, key_len, count, Some(seed)),
        k < count,
    ensures
        keys.len() == count,
        ({
            let start = RandomState {
                key_len,
                rng: seeded_state(seed),
                used: Seq::<Seq<u8>>::empty(),
            };
            let before = start.generate_many(k).1;
            &&& keys[k as int] == fill_draw(before.rng, key_len).0
            &&& keys[0] == fill_draw(seeded_state(seed), key_len).0
        }),
{
    let start = RandomState { key_len, rng: seeded_state(seed), used: Seq::<Seq<u8>>::empty() };
    let given = choose|given: RandomState|
        given.key_len == key_len && given.used == Seq::<Seq<u8>>::empty() && given.rng
            == seeded_state(seed) && keys == (#[trigger] given.generate_many(count)).0;
    assert(given == start);
    lemma_generated_key(start, count, k);
    lemma_generated_key(start, count, 0);
}

/// The keys that a random generator gives, each from the state before it.
proof fn lemma_generated_key(start: RandomState, n: nat, k: nat)
    requires
        k < n,
    ensures
        start.generate_many(n).0.len() == n,
        start.generate_many(n).0[k as int] == fill_draw(
            start.generate_many(k).1.rng,
            start.key_len,
        ).0,
        start.generate_many(n).1.key_len == start.key_len,
    decreases n,
{
    let m = (n - 1) as nat;
    assert(start.generate_many(0) == (Seq::<Seq<u8>>::empty(), start));
    if m > 0 {
        lemma_generated_key(start, m, if k < m {
            k
        } else {
            0
        });
    }
}

} // verus!
