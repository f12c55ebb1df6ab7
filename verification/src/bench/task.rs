//! One task of the benchmark.
//!
//! A task runs a loop. It generates a key (and a value if needed), and then
//! either puts the key/value pair or reads keys. The ratio of puts to reads is
//! controlled by the `put_percentage`. Times are in nanoseconds.

use bytes::Bytes;
use rand_xorshift::XorShiftRng;
use vstd::prelude::*;

use super::keys::KeyGenerator;
use super::reader::ReadMode;
use super::rng::{fill_bytes, fill_draw, from_os_rng, random_below, range_draw, rng_state};
use super::stats::{OpCounts, REPORT_INTERVAL};
use crate::octets::{as_slice, content, contents};

verus! {

/// The arguments of a task.
#[derive(Clone, Copy, Debug, PartialEq, Eq, Structural)]
pub struct TaskArgs {
    pub val_len: usize,
    /// The number of rows at which the tasks stop, or `None` for no limit. A
    /// task tests it against the puts that all tasks reported. A report can
    /// come [`REPORT_INTERVAL`] after its puts, and each task finishes what it
    /// began, so the tasks can write more rows than this.
    pub num_keys: Option<u64>,
    /// The duration of the run, or `None` for no limit.
    pub duration: Option<u128>,
    pub put_percentage: u32,
    pub get_hit_percentage: u32,
    pub read_mode: ReadMode,
}

/// What a task does next.
#[derive(Debug)]
pub enum TaskOp {
    Put { key: Bytes, value: Vec<u8> },
    Read { keys: Vec<Bytes> },
}

/// What a [`TaskOp`] says.
pub enum TaskOpView {
    Put { key: Seq<u8>, value: Seq<u8> },
    Read { keys: Seq<Seq<u8>> },
}

impl View for TaskOp {
    type V = TaskOpView;

    open spec fn view(&self) -> TaskOpView {
        match *self {
            TaskOp::Put { key, value } => TaskOpView::Put { key: content(key), value: value@ },
            TaskOp::Read { keys } => TaskOpView::Read { keys: contents(keys@) },
        }
    }
}

/// One task of the benchmark.
pub struct Task<G: KeyGenerator> {
    pub args: TaskArgs,
    pub key_generator: G,
    pub random: XorShiftRng,
    /// What the task did since its last report.
    pub counts: OpCounts,
    /// The latencies of the read calls since the last report.
    pub latencies: Vec<u128>,
}

/// What the choices of a task rest on.
pub struct ChoiceState<S> {
    pub random: Seq<u32>,
    pub generator: S,
}

/// Whether a draw from a hundred is below `percentage`, and the random
/// numbers after it.
pub open spec fn chance(random: Seq<u32>, percentage: u32) -> (bool, Seq<u32>) {
    let (drawn, after) = range_draw(random, 100);
    (drawn < percentage, after)
}

/// One key of a read call, and the choices after it. Each key is a hit with
/// `hit_percentage` probability.
pub open spec fn read_key<G: KeyGenerator>(
    choices: ChoiceState<G::State>,
    hit_percentage: u32,
) -> (Seq<u8>, ChoiceState<G::State>) {
    let (hit, random) = chance(choices.random, hit_percentage);
    let (key, generator) = if hit {
        G::used(choices.generator)
    } else {
        G::next(choices.generator)
    };
    (key, ChoiceState { random, generator })
}

/// The keys of one read call, and the choices after it.
pub open spec fn read_keys<G: KeyGenerator>(
    choices: ChoiceState<G::State>,
    hit_percentage: u32,
    n: nat,
) -> (Seq<Seq<u8>>, ChoiceState<G::State>)
    decreases n,
{
    if n == 0 {
        (Seq::empty(), choices)
    } else {
        let (keys, before) = read_keys::<G>(choices, hit_percentage, (n - 1) as nat);
        let (key, after) = read_key::<G>(before, hit_percentage);
        (keys.push(key), after)
    }
}

/// The generator can give each of the keys.
pub open spec fn all_given<G: KeyGenerator>(state: G::State, keys: Seq<Seq<u8>>) -> bool {
    forall|i: int| 0 <= i < keys.len() ==> G::gives(state, #[trigger] keys[i])
}

/// What a task does next, and the choices after it.
pub open spec fn next_op_of<G: KeyGenerator>(
    choices: ChoiceState<G::State>,
    args: TaskArgs,
) -> (TaskOpView, ChoiceState<G::State>) {
    let (put, random) = chance(choices.random, args.put_percentage);
    if put {
        let (key, generator) = G::next(choices.generator);
        let (value, random) = fill_draw(random, args.val_len as nat);
        (TaskOpView::Put { key, value }, ChoiceState { random, generator })
    } else {
        let (keys, after) = read_keys::<G>(
            ChoiceState { random, ..choices },
            args.get_hit_percentage,
            args.read_mode.keys_per_call() as nat,
        );
        (TaskOpView::Read { keys }, after)
    }
}

/// The length of an optional value.
pub open spec fn value_len(value: Option<Bytes>) -> nat {
    match value {
        Some(value) => content(value).len(),
        None => 0,
    }
}

/// The bytes of the first `n` keys and their values.
pub open spec fn read_bytes(keys: Seq<Bytes>, values: Seq<Option<Bytes>>, n: int) -> nat
    decreases n,
{
    if n <= 0 {
        0
    } else {
        read_bytes(keys, values, n - 1) + content(keys[n - 1]).len() + value_len(values[n - 1])
    }
}

/// How many of the first `n` keys have a value.
pub open spec fn read_hits(values: Seq<Option<Bytes>>, n: int) -> nat
    decreases n,
{
    if n <= 0 {
        0
    } else {
        read_hits(values, n - 1) + if values[n - 1] is Some {
            1nat
        } else {
            0
        }
    }
}

/// The number of keys of a read call that have an answer.
pub open spec fn answered(keys: Seq<Bytes>, values: Seq<Option<Bytes>>) -> nat {
    if keys.len() < values.len() {
        keys.len()
    } else {
        values.len()
    }
}

/// More keys have more bytes.
proof fn lemma_read_bytes_grow(keys: Seq<Bytes>, values: Seq<Option<Bytes>>, i: int, n: int)
    requires
        0 <= i <= n,
    ensures
        read_bytes(keys, values, i) <= read_bytes(keys, values, n),
        read_hits(values, i) <= read_hits(values, n),
    decreases n,
{
    if i < n {
        lemma_read_bytes_grow(keys, values, i, n - 1);
    }
}

impl<G: KeyGenerator> Task<G> {
    /// What the choices of the task rest on.
    pub open spec fn choices(self) -> ChoiceState<G::State> {
        ChoiceState { random: rng_state(self.random), generator: self.key_generator.state() }
    }

    /// A task that did nothing yet.
    pub fn new(key_generator: G, args: TaskArgs) -> (task: Self)
        ensures
            task.args == args,
            task.key_generator == key_generator,
            task.counts == OpCounts::zero(),
            task.latencies@ == Seq::<u128>::empty(),
    {
        Task {
            args,
            key_generator,
            random: from_os_rng(),
            counts: OpCounts::none(),
            latencies: Vec::new(),
        }
    }

    /// Whether the task goes on, when all tasks reported `total_puts` puts and
    /// the run takes `elapsed` so far.
    pub fn goes_on(&self, total_puts: u64, elapsed: u128) -> (on: bool)
        ensures
            on == (total_puts < (match self.args.num_keys {
                Some(num_keys) => num_keys,
                None => u64::MAX,
            }) && elapsed < (match self.args.duration {
                Some(duration) => duration,
                None => u128::MAX,
            })),
    {
        let num_keys: u64 = match self.args.num_keys {
            Some(num_keys) => num_keys,
            None => u64::MAX,
        };
        let duration: u128 = match self.args.duration {
            Some(duration) => duration,
            None => u128::MAX,
        };
        total_puts < num_keys && elapsed < duration
    }

    /// Draw from a hundred. The result says that the draw is below
    /// `percentage`.
    fn draw(&mut self, percentage: u32) -> (below: bool)
        ensures
            (below, rng_state(final(self).random)) == chance(
                rng_state(old(self).random),
                percentage,
            ),
            final(self).key_generator == old(self).key_generator,
            final(self).args == old(self).args,
            final(self).counts == old(self).counts,
            final(self).latencies == old(self).latencies,
            below <==> range_draw(rng_state(old(self).random), 100).0 < percentage,
            rng_state(final(self).random) == range_draw(rng_state(old(self).random), 100).1,
            percentage >= 100 ==> below,
            percentage == 0 ==> !below,
    {
        let drawn: usize = random_below(&mut self.random, 100);
        (drawn as u64) < (percentage as u64)
    }

    /// Choose what to do next. With a put percentage of 100 a task only puts,
    /// and with 0 it only reads.
    pub fn next_op(&mut self) -> (op: TaskOp)
        requires
            old(self).key_generator.ready(),
            old(self).args.val_len <= isize::MAX,
        ensures
            (op@, final(self).choices()) == next_op_of::<G>(old(self).choices(), old(self).args),
            match op@ {
                TaskOpView::Put { key, value } => {
                    &&& G::gives(old(self).key_generator.state(), key)
                    &&& value.len() == old(self).args.val_len
                },
                TaskOpView::Read { keys } => all_given::<G>(
                    old(self).key_generator.state(),
                    keys,
                ),
            },
            op is Put <==> range_draw(rng_state(old(self).random), 100).0 < old(
                self,
            ).args.put_percentage,
            op@ matches TaskOpView::Put { key, value } ==> {
                &&& key == G::next(old(self).key_generator.state()).0
                &&& value == fill_draw(
                    range_draw(rng_state(old(self).random), 100).1,
                    old(self).args.val_len as nat,
                ).0
            },
            op@ matches TaskOpView::Read { keys } ==> keys.len() == old(
                self,
            ).args.read_mode.keys_per_call() && forall|i: int|
                0 <= i < keys.len() ==> #[trigger] keys[i] == ({
                    let before = read_keys::<G>(
                        ChoiceState {
                            random: range_draw(rng_state(old(self).random), 100).1,
                            generator: old(self).key_generator.state(),
                        },
                        old(self).args.get_hit_percentage,
                        i as nat,
                    ).1;
                    if range_draw(before.random, 100).0 < old(self).args.get_hit_percentage {
                        G::used(before.generator).0
                    } else {
                        G::next(before.generator).0
                    }
                }),
            old(self).args.put_percentage >= 100 ==> op is Put,
            old(self).args.put_percentage == 0 ==> op is Read,
            final(self).key_generator.ready(),
            final(self).args == old(self).args,
            final(self).counts == old(self).counts,
            final(self).latencies == old(self).latencies,
    {
        proof {
            law_each_key_of_a_read_is_a_draw::<G>(
                ChoiceState {
                    random: range_draw(rng_state(self.random), 100).1,
                    generator: self.key_generator.state(),
                },
                self.args.get_hit_percentage,
                self.args.read_mode.keys_per_call() as nat,
            );
        }
        if self.draw(self.args.put_percentage) {
            let key = self.key_generator.next_key();
            let value = fill_bytes(&mut self.random, self.args.val_len);
            TaskOp::Put { key, value }
        } else {
            let keys = self.read_keys();
            TaskOp::Read { keys }
        }
    }

    /// Picks the keys of one read call. Each key is a hit with
    /// `get_hit_percentage` probability.
    pub fn read_keys(&mut self) -> (keys: Vec<Bytes>)
        requires
            old(self).key_generator.ready(),
        ensures
            (contents(keys@), final(self).choices()) == read_keys::<G>(
                old(self).choices(),
                old(self).args.get_hit_percentage,
                old(self).args.read_mode.keys_per_call() as nat,
            ),
            keys@.len() == old(self).args.read_mode.keys_per_call(),
            forall|i: int|
                0 <= i < keys@.len() ==> #[trigger] contents(keys@)[i] == ({
                    let before = read_keys::<G>(
                        old(self).choices(),
                        old(self).args.get_hit_percentage,
                        i as nat,
                    ).1;
                    if range_draw(before.random, 100).0 < old(self).args.get_hit_percentage {
                        G::used(before.generator).0
                    } else {
                        G::next(before.generator).0
                    }
                }),
            all_given::<G>(old(self).key_generator.state(), contents(keys@)),
            final(self).key_generator.ready(),
            final(self).args == old(self).args,
            final(self).counts == old(self).counts,
            final(self).latencies == old(self).latencies,
    {
        let n: usize = self.args.read_mode.batch_size();
        let ghost start = self.choices();
        let mut keys: Vec<Bytes> = Vec::new();
        assert(contents(keys@) =~= Seq::<Seq<u8>>::empty());
        for i in 0..n
            invariant
                self.key_generator.ready(),
                self.args == old(self).args,
                self.counts == old(self).counts,
                self.latencies == old(self).latencies,
                keys@.len() == i,
                all_given::<G>(start.generator, contents(keys@)),
                forall|k: Seq<u8>| #[trigger]
                    G::gives(self.key_generator.state(), k) == G::gives(start.generator, k),
                (contents(keys@), self.choices()) == read_keys::<G>(
                    start,
                    self.args.get_hit_percentage,
                    i as nat,
                ),
        {
            let ghost before = contents(keys@);
            let key = if self.draw(self.args.get_hit_percentage) {
                self.key_generator.used_key()
            } else {
                self.key_generator.next_key()
            };
            let ghost name = content(key);
            keys.push(key);
            assert(contents(keys@) =~= before.push(name));
        }
        proof {
            law_each_key_of_a_read_is_a_draw::<G>(start, self.args.get_hit_percentage, n as nat);
        }
        keys
    }

    /// Count a put that succeeded. A put that failed does not count.
    pub fn on_put(&mut self)
        requires
            old(self).counts.puts < u64::MAX,
            old(self).counts.puts_bytes + old(self).args.val_len <= u64::MAX,
        ensures
            final(self).counts == (OpCounts {
                puts: (old(self).counts.puts + 1) as u64,
                puts_bytes: (old(self).counts.puts_bytes + old(self).args.val_len) as u64,
                ..old(self).counts
            }),
            final(self).args == old(self).args,
            final(self).key_generator == old(self).key_generator,
            final(self).random == old(self).random,
            final(self).latencies == old(self).latencies,
    {
        self.counts.puts = self.counts.puts + 1;
        self.counts.puts_bytes = self.counts.puts_bytes + self.args.val_len as u64;
    }

    /// Count a read call that succeeded. A call that failed does not count.
    pub fn on_read(&mut self, keys: &Vec<Bytes>, values: &Vec<Option<Bytes>>, elapsed: u128)
        requires
            old(self).counts.gets + values@.len() <= u64::MAX,
            old(self).counts.gets_hits + read_hits(
                values@,
                answered(keys@, values@) as int,
            ) <= u64::MAX,
            old(self).counts.gets_bytes + read_bytes(
                keys@,
                values@,
                answered(keys@, values@) as int,
            ) <= u64::MAX,
        ensures
            final(self).counts == (OpCounts {
                gets: (old(self).counts.gets + values@.len()) as u64,
                gets_hits: (old(self).counts.gets_hits + read_hits(
                    values@,
                    answered(keys@, values@) as int,
                )) as u64,
                gets_bytes: (old(self).counts.gets_bytes + read_bytes(
                    keys@,
                    values@,
                    answered(keys@, values@) as int,
                )) as u64,
                ..old(self).counts
            }),
            final(self).latencies@ == old(self).latencies@.push(elapsed),
            final(self).args == old(self).args,
            final(self).key_generator == old(self).key_generator,
            final(self).random == old(self).random,
    {
        self.latencies.push(elapsed);
        self.counts.gets = self.counts.gets + values.len() as u64;
        let n: usize = if keys.len() < values.len() {
            keys.len()
        } else {
            values.len()
        };
        let ghost start = self.counts;
        for i in 0..n
            invariant
                n == answered(keys@, values@),
                start.gets_hits + read_hits(values@, n as int) <= u64::MAX,
                start.gets_bytes + read_bytes(keys@, values@, n as int) <= u64::MAX,
                self.counts == (OpCounts {
                    gets_hits: (start.gets_hits + read_hits(values@, i as int)) as u64,
                    gets_bytes: (start.gets_bytes + read_bytes(keys@, values@, i as int)) as u64,
                    ..start
                }),
                self.latencies@ == old(self).latencies@.push(elapsed),
                self.args == old(self).args,
                self.key_generator == old(self).key_generator,
                self.random == old(self).random,
        {
            proof {
                lemma_read_bytes_grow(keys@, values@, i + 1, n as int);
                lemma_read_bytes_grow(keys@, values@, i as int, n as int);
            }
            let key_len: u64 = as_slice(&keys[i]).len() as u64;
            let value_bytes: u64 = match &values[i] {
                Some(value) => {
                    self.counts.gets_hits = self.counts.gets_hits + 1;
                    as_slice(value).len() as u64
                },
                None => 0,
            };
            self.counts.gets_bytes = self.counts.gets_bytes + key_len + value_bytes;
        }
    }

    /// Report what the task did, when the last report is
    /// [`REPORT_INTERVAL`] ago. The counts and the latencies then start over.
    pub fn report(&mut self, since_last: u128) -> (report: Option<(OpCounts, Vec<u128>)>)
        ensures
            match report {
                None => since_last < REPORT_INTERVAL && *final(self) == *old(self),
                Some((counts, latencies)) => {
                    &&& since_last >= REPORT_INTERVAL
                    &&& counts == old(self).counts
                    &&& latencies == old(self).latencies
                    &&& final(self).counts == OpCounts::zero()
                    &&& final(self).latencies@ == Seq::<u128>::empty()
                    &&& final(self).args == old(self).args
                    &&& final(self).key_generator == old(self).key_generator
                    &&& final(self).random == old(self).random
                },
            },
    {
        if since_last < REPORT_INTERVAL {
            return None;
        }
        let mut latencies: Vec<u128> = Vec::new();
        assert(latencies@ =~= Seq::<u128>::empty());
        std::mem::swap(&mut latencies, &mut self.latencies);
        let counts = self.counts;
        self.counts = OpCounts::none();
        Some((counts, latencies))
    }
}

/// Of the hundred numbers that a draw can give, exactly those below the
/// percentage give the chance. One that a percentage gives, a larger one gives
/// too, and the random numbers go on in the same way.
pub proof fn law_a_draw_below_the_percentage_gives_the_chance(
    random: Seq<u32>,
    percentage: u32,
    larger: u32,
)
    requires
        percentage <= larger,
    ensures
        chance(random, percentage).0 <==> range_draw(random, 100).0 < percentage,
        chance(random, percentage).1 == range_draw(random, 100).1,
        chance(random, percentage).0 ==> chance(random, larger).0,
        range_draw(random, 100).0 >= larger ==> !chance(random, larger).0,
{
}

/// A task puts exactly when the drawn number is below the put percentage. A
/// put has the next key of the generator, and the random bytes that come after
/// the draw as its value. A read has the keys that the read mode asks for.
pub proof fn law_the_drawn_number_decides_on_a_put<G: KeyGenerator>(
    choices: ChoiceState<G::State>,
    args: TaskArgs,
)
    ensures
        ({
            let (drawn, random) = range_draw(choices.random, 100);
            let (op, after) = next_op_of::<G>(choices, args);
            &&& op is Put <==> drawn < args.put_percentage
            &&& op matches TaskOpView::Put { key, value } ==> {
                &&& (key, after.generator) == G::next(choices.generator)
                &&& (value, after.random) == fill_draw(random, args.val_len as nat)
            }
            &&& op matches TaskOpView::Read { keys } ==> {
                &&& (keys, after) == read_keys::<G>(
                    ChoiceState { random, generator: choices.generator },
                    args.get_hit_percentage,
                    args.read_mode.keys_per_call() as nat,
                )
                &&& keys.len() == args.read_mode.keys_per_call()
            }
        }),
{
    let (drawn, random) = range_draw(choices.random, 100);
    law_each_key_of_a_read_is_a_draw::<G>(
        ChoiceState { random, generator: choices.generator },
        args.get_hit_percentage,
        args.read_mode.keys_per_call() as nat,
    );
}

/// A larger put percentage never turns a put into a read.
pub proof fn law_a_larger_percentage_keeps_the_puts<G: KeyGenerator>(
    choices: ChoiceState<G::State>,
    args: TaskArgs,
    more: TaskArgs,
)
    requires
        more == (TaskArgs { put_percentage: more.put_percentage, ..args }),
        args.put_percentage <= more.put_percentage,
        next_op_of::<G>(choices, args).0 is Put,
    ensures
        next_op_of::<G>(choices, more) == next_op_of::<G>(choices, args),
{
}

/// Each key of a read call is drawn for on its own: it is a used key when the
/// drawn number is below the hit percentage, and the next key otherwise. The
/// key after it goes on with the random numbers and the generator that this
/// one left.
pub proof fn law_each_key_of_a_read_is_a_draw<G: KeyGenerator>(
    choices: ChoiceState<G::State>,
    hit_percentage: u32,
    n: nat,
)
    ensures
        read_keys::<G>(choices, hit_percentage, 0) == (Seq::<Seq<u8>>::empty(), choices),
        read_keys::<G>(choices, hit_percentage, n).0.len() == n,
        forall|i: int|
            0 <= i < n ==> {
                let before = read_keys::<G>(choices, hit_percentage, i as nat).1;
                let after = read_keys::<G>(choices, hit_percentage, (i + 1) as nat).1;
                let (drawn, random) = range_draw(before.random, 100);
                &&& after.random == random
                &&& (
                    #[trigger] read_keys::<G>(choices, hit_percentage, n).0[i],
                    after.generator,
                ) == if drawn < hit_percentage {
                    G::used(before.generator)
                } else {
                    G::next(before.generator)
                }
            },
    decreases n,
{
    if n > 0 {
        let m = (n - 1) as nat;
        law_each_key_of_a_read_is_a_draw::<G>(choices, hit_percentage, m);
        let fewer = read_keys::<G>(choices, hit_percentage, m).0;
        let all = read_keys::<G>(choices, hit_percentage, n).0;
        assert forall|i: int| 0 <= i < n implies {
            let before = read_keys::<G>(choices, hit_percentage, i as nat).1;
            let after = read_keys::<G>(choices, hit_percentage, (i + 1) as nat).1;
            let (drawn, random) = range_draw(before.random, 100);
            &&& after.random == random
            &&& (#[trigger] all[i], after.generator) == if drawn < hit_percentage {
                G::used(before.generator)
            } else {
                G::next(before.generator)
            }
        } by {
            if i < m {
                assert(all[i] == fewer[i]);
            }
        }
    }
}

/// Each key of a read call counts with its own bytes and those of its value.
/// Each key that has a value is a hit, also where the value is empty.
pub proof fn law_each_key_of_a_read_counts(
    keys: Seq<Bytes>,
    values: Seq<Option<Bytes>>,
    key: Bytes,
    value: Bytes,
)
    requires
        keys.len() == values.len(),
    ensures
        ({
            let n = keys.len() as int;
            let found = values.push(Some(value));
            let not_found = values.push(None);
            &&& read_bytes(keys.push(key), found, n + 1) == read_bytes(keys, values, n) + content(
                key,
            ).len() + content(value).len()
            &&& read_bytes(keys.push(key), not_found, n + 1) == read_bytes(keys, values, n)
                + content(key).len()
            &&& read_hits(found, n + 1) == read_hits(values, n) + 1
            &&& read_hits(not_found, n + 1) == read_hits(values, n)
            &&& answered(keys, values) == n
        }),
        read_bytes(keys, values, 0) == 0,
        read_hits(values, 0) == 0,
{
    let n = keys.len() as int;
    lemma_read_counts_front(keys, values, key, Some(value), n);
    lemma_read_counts_front(keys, values, key, None, n);
}

/// What the first `n` keys count for does not rest on a key behind them.
proof fn lemma_read_counts_front(
    keys: Seq<Bytes>,
    values: Seq<Option<Bytes>>,
    key: Bytes,
    value: Option<Bytes>,
    n: int,
)
    requires
        0 <= n <= keys.len(),
        keys.len() == values.len(),
    ensures
        read_bytes(keys.push(key), values.push(value), n) == read_bytes(keys, values, n),
        read_hits(values.push(value), n) == read_hits(values, n),
    decreases n,
{
    if n > 0 {
        lemma_read_counts_front(keys, values, key, value, n - 1);
    }
}

} // verus!
