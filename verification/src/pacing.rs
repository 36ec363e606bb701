//! When a profiling run looks at the clock, and when it refills.
//!
//! The clock and the workload stand outside: each turn says what to do before
//! the next hot call, and the caller does it.

use vstd::prelude::*;

verus! {

/// The clock is looked at once in so many turns. Looking every time would cost
/// more than a fast hot call does.
pub const POLL_EVERY: u64 = 4096;

/// What to do in one turn, ahead of the hot call.
#[derive(Debug, Clone, Copy, PartialEq, Eq, Structural)]
pub struct Turn {
    /// Look at the clock, and stop if the time is up.
    pub poll: bool,
    /// Prepare so many hot calls; nothing is to be prepared where it is zero.
    pub refill: u64,
}

/// How far a run has come. A workload whose hot calls need nothing prepared has
/// no batch.
#[derive(Debug, Clone, Copy)]
pub struct Pace {
    batch: Option<u64>,
    tick: u64,
    left: u64,
}

/// Turns taken so far, counted past every machine limit but up to a multiple of
/// [`POLL_EVERY`], and prepared hot calls that are left.
pub struct PaceView {
    pub batch: Option<u64>,
    pub phase: nat,
    pub left: nat,
}

impl PaceView {
    pub open spec fn valid(self) -> bool {
        &&& self.batch matches Some(batch) ==> batch > 0 && self.left < batch
        &&& self.batch is None ==> self.left == 0
        &&& self.phase < POLL_EVERY
    }

    /// The next turn.
    pub open spec fn turn(self) -> Turn {
        Turn {
            poll: self.phase + 1 == POLL_EVERY,
            refill: match self.batch {
                Some(batch) if self.left == 0 => batch,
                _ => 0,
            },
        }
    }

    /// After that turn and its hot call.
    pub open spec fn after(self) -> PaceView {
        PaceView {
            phase: if self.phase + 1 == POLL_EVERY {
                0
            } else {
                self.phase + 1
            },
            left: match self.batch {
                Some(_) => (self.left + self.turn().refill - 1) as nat,
                None => 0,
            },
            ..self
        }
    }

    /// After `n` turns.
    pub open spec fn later(self, n: nat) -> PaceView
        decreases n,
    {
        if n == 0 {
            self
        } else {
            self.later((n - 1) as nat).after()
        }
    }

    /// Hot calls prepared in `n` turns.
    pub open spec fn prepared(self, n: nat) -> nat
        decreases n,
    {
        if n == 0 {
            0
        } else {
            self.prepared((n - 1) as nat) + self.later((n - 1) as nat).turn().refill as nat
        }
    }
}

impl View for Pace {
    type V = PaceView;

    closed spec fn view(&self) -> PaceView {
        PaceView {
            batch: self.batch,
            phase: (self.tick % POLL_EVERY) as nat,
            left: self.left as nat,
        }
    }
}

impl Pace {
    /// The start of a run: nothing is prepared yet, so a workload with a batch
    /// is refilled in the first turn.
    pub fn new(batch: Option<u64>) -> (r: Self)
        requires
            batch != Some(0u64),
        ensures
            r@ == (PaceView { batch, phase: 0, left: 0 }),
            r@.valid(),
    {
        Pace { batch, tick: 0, left: 0 }
    }

    /// Take a turn.
    pub fn turn(&mut self) -> (r: Turn)
        requires
            old(self)@.valid(),
        ensures
            r == old(self)@.turn(),
            final(self)@ == old(self)@.after(),
            final(self)@.valid(),
    {
        let poll = self.tick % POLL_EVERY == POLL_EVERY - 1;
        self.tick = self.tick.wrapping_add(1);
        let mut refill: u64 = 0;
        if let Some(batch) = self.batch {
            if self.left == 0 {
                refill = batch;
                self.left = batch;
            }
            self.left = self.left - 1;
        }
        Turn { poll, refill }
    }
}

/// The size of the next batch of a warm-up with `left` hot calls to go.
pub fn next_batch(left: u64, batch: u64) -> (r: u64)
    ensures
        r == batch_size(left as nat, batch as nat),
{
    if left < batch {
        left
    } else {
        batch
    }
}

/// As many calls as a batch holds, but no more than are left.
pub open spec fn batch_size(left: nat, batch: nat) -> nat {
    if left < batch {
        left
    } else {
        batch
    }
}

/// The sizes of the batches of a warm-up of `left` hot calls, in order: each is
/// taken off what is left until nothing is.
pub open spec fn warm_up(left: nat, batch: nat) -> Seq<nat>
    decreases left,
{
    if left == 0 || batch == 0 {
        Seq::empty()
    } else {
        let n = batch_size(left, batch);
        seq![n] + warm_up((left - n) as nat, batch)
    }
}

/// The sum of some sizes.
pub open spec fn sum(sizes: Seq<nat>) -> nat
    decreases sizes.len(),
{
    if sizes.len() == 0 {
        0
    } else {
        sizes[0] + sum(sizes.drop_first())
    }
}

/// A warm-up in batches adds up: it hands out exactly as many hot calls as there
/// are to be. Each batch has at least one and at most as many as fit in a batch,
/// and only the last one can have fewer.
pub proof fn law_warm_up_adds_up(left: nat, batch: nat)
    requires
        batch > 0,
    ensures
        sum(warm_up(left, batch)) == left,
        forall|i: int|
            0 <= i < warm_up(left, batch).len() ==> 1 <= #[trigger] warm_up(left, batch)[i]
                <= batch,
        forall|i: int|
            0 <= i < warm_up(left, batch).len() - 1 ==> #[trigger] warm_up(left, batch)[i]
                == batch,
    decreases left,
{
    let sizes = warm_up(left, batch);
    if left > 0 {
        let n = batch_size(left, batch);
        let rest = warm_up((left - n) as nat, batch);
        law_warm_up_adds_up((left - n) as nat, batch);
        assert(sizes.drop_first() =~= rest);
        assert forall|i: int| 0 <= i < sizes.len() implies 1 <= #[trigger] sizes[i] <= batch && (i
            < sizes.len() - 1 ==> sizes[i] == batch) by {
            if i > 0 {
                assert(sizes[i] == rest[i - 1]);
            } else if left < batch {
                assert(rest.len() == 0);
            }
        }
    }
}

/// How many hot calls the first `k` batches of a warm-up have.
pub open spec fn warm_up_calls(left: nat, batch: nat, k: nat) -> nat {
    sum(warm_up(left, batch).take(k as int))
}

/// Each batch of a warm-up is prepared before it runs, so no hot call of it runs
/// unprepared: when call `j` of batch `k` comes, fewer calls have run than the
/// batches up to `k` were prepared for. Nothing is prepared that does not run.
pub proof fn law_warm_up_calls_are_prepared(left: nat, batch: nat, k: nat, j: nat)
    requires
        batch > 0,
        k < warm_up(left, batch).len(),
        j < warm_up(left, batch)[k as int],
    ensures
        warm_up_calls(left, batch, k) + j < warm_up_calls(left, batch, k + 1),
        warm_up_calls(left, batch, warm_up(left, batch).len()) == left,
{
    let sizes = warm_up(left, batch);
    lemma_sum_push(sizes.take(k as int), sizes[k as int]);
    assert(sizes.take(k as int).push(sizes[k as int]) =~= sizes.take((k + 1) as int));
    assert(sizes.take(sizes.len() as int) =~= sizes);
    law_warm_up_adds_up(left, batch);
}

proof fn lemma_sum_push(sizes: Seq<nat>, n: nat)
    ensures
        sum(sizes.push(n)) == sum(sizes) + n,
    decreases sizes.len(),
{
    if sizes.len() == 0 {
        assert(sizes.push(n).drop_first() =~= Seq::empty());
        assert(sum(sizes.push(n).drop_first()) == 0);
    } else {
        lemma_sum_push(sizes.drop_first(), n);
        assert(sizes.push(n).drop_first() =~= sizes.drop_first().push(n));
    }
}

/// The clock is looked at in every [`POLL_EVERY`]th turn of a run and in no
/// other.
pub proof fn law_polls_are_regular(batch: Option<u64>, n: nat)
    ensures
        (PaceView { batch, phase: 0, left: 0 }).later(n).turn().poll <==> (n + 1)
            % POLL_EVERY as nat == 0,
{
    lemma_phase(batch, n);
}

proof fn lemma_phase(batch: Option<u64>, n: nat)
    ensures
        (PaceView { batch, phase: 0, left: 0 }).later(n).phase == n % POLL_EVERY as nat,
    decreases n,
{
    if n > 0 {
        lemma_phase(batch, (n - 1) as nat);
    }
}

/// No hot call of a workload with a batch runs unprepared: after any number of
/// turns, what was prepared is what ran and what is left.
pub proof fn law_hot_calls_are_prepared(start: PaceView, n: nat)
    requires
        start.valid(),
        start.batch is Some,
    ensures
        start.later(n).valid(),
        start.later(n).batch == start.batch,
        start.left + start.prepared(n) == n + start.later(n).left,
    decreases n,
{
    if n > 0 {
        law_hot_calls_are_prepared(start, (n - 1) as nat);
    }
}

} // verus!
