//! The smaller pieces: pacing, names of allocators, and the mixer of keys.

use vstd::prelude::*;

use crate::pacing::{next_batch, warm_up, Pace, PaceView, Turn};
use crate::types::{
    is_white, trimmed, without_lead, without_trail, MarketOrderResult, SlabAllocator,
};
use crate::u64_map::U64Mixer;

verus! {

/// In each turn one hot call runs. If none is prepared a whole batch is prepared
/// first, and otherwise nothing. The clock is looked at in one of 4096 turns.
pub proof fn law_turn_prepares_a_whole_batch_or_nothing(pace: &mut Pace, t: Turn)
    requires
        old(pace)@.valid(),
        call_ensures(Pace::turn, (pace,), t),
    ensures
        final(pace)@.batch == old(pace)@.batch,
        t.poll <==> old(pace)@.phase == 4095,
        final(pace)@.phase == (if t.poll {
            0
        } else {
            old(pace)@.phase + 1
        }),
        match old(pace)@.batch {
            Some(batch) => {
                &&& t.refill == (if old(pace)@.left == 0 {
                    batch
                } else {
                    0
                })
                &&& final(pace)@.left + 1 == old(pace)@.left + t.refill
            },
            None => t.refill == 0 && final(pace)@.left == 0,
        },
{
}

/// A run starts at the beginning of a round with nothing prepared.
pub proof fn law_run_starts_unprepared(batch: Option<u64>, pace: Pace)
    requires
        call_ensures(Pace::new, (batch,), pace),
    ensures
        pace@.batch == batch,
        pace@.phase == 0,
        pace@.left == 0,
{
}

/// From the first turn of a run on, a batch is prepared each time that as many
/// hot calls as it holds have run, and at no other time.
pub proof fn law_refills_are_regular(batch: u64, n: nat)
    requires
        batch > 0,
    ensures
        (PaceView { batch: Some(batch), phase: 0, left: 0 }).later(n).turn().refill == (if n
            % batch as nat == 0 {
            batch
        } else {
            0
        }),
{
    lemma_left(batch, n);
}

/// How many prepared hot calls are left after `n` turns.
proof fn lemma_left(batch: u64, n: nat)
    requires
        batch > 0,
    ensures
        ({
            let now = (PaceView { batch: Some(batch), phase: 0, left: 0 }).later(n);
            &&& now.batch == Some(batch)
            &&& now.left == (if n % batch as nat == 0 {
                0
            } else {
                batch - n % batch as nat
            })
        }),
    decreases n,
{
    let b = batch as int;
    if n > 0 {
        let m = (n - 1) as nat;
        lemma_left(batch, m);
        vstd::arithmetic::div_mod::lemma_fundamental_div_mod(m as int, b);
        let (q, r) = (m as int / b, m as int % b);
        if r + 1 == b {
            assert(n == (q + 1) * b) by (nonlinear_arith)
                requires
                    n == m + 1,
                    m == b * q + r,
                    r + 1 == b,
            ;
            vstd::arithmetic::div_mod::lemma_fundamental_div_mod_converse(n as int, b, q + 1, 0);
        } else {
            assert(n == q * b + (r + 1)) by (nonlinear_arith)
                requires
                    n == m + 1,
                    m == b * q + r,
            ;
            vstd::arithmetic::div_mod::lemma_fundamental_div_mod_converse(n as int, b, q, r + 1);
        }
    } else {
        vstd::arithmetic::div_mod::lemma_small_mod(0, batch as nat);
    }
}

/// The next batch of a warm-up is a full one, or what is left if that is less.
pub proof fn law_next_batch_is_full_or_the_rest(left: u64, batch: u64, r: u64)
    requires
        call_ensures(next_batch, (left, batch), r),
    ensures
        r <= left,
        r <= batch,
        r == left || r == batch,
{
}

/// A warm-up is made of the batches that come next in turn: what is left after
/// the first of them is warmed up by the others.
pub proof fn law_warm_up_goes_batch_by_batch(left: u64, batch: u64, r: u64)
    requires
        call_ensures(next_batch, (left, batch), r),
        left > 0,
        batch > 0,
    ensures
        warm_up(left as nat, batch as nat).len() > 0,
        warm_up(left as nat, batch as nat)[0] == r,
        warm_up(left as nat, batch as nat).drop_first() == warm_up(
            (left - r) as nat,
            batch as nat,
        ),
        warm_up(0, batch as nat).len() == 0,
{
    let rest = warm_up((left - r) as nat, batch as nat);
    assert(warm_up(left as nat, batch as nat) == seq![r as nat] + rest);
    assert((seq![r as nat] + rest).drop_first() =~= rest);
}

/// What was filled of a market order and what was not make up what was asked
/// for, and something was cancelled exactly if something was not filled.
pub proof fn law_filled_and_remaining_make_up_the_request(
    result: MarketOrderResult,
    requested: u64,
    filled: u64,
    cancelled: bool,
)
    requires
        result.remaining <= requested,
        call_ensures(MarketOrderResult::filled, (result, requested), filled),
        call_ensures(MarketOrderResult::cancelled, (result,), cancelled),
    ensures
        filled + result.remaining == requested,
        cancelled <==> filled < requested,
{
}

/// The short name of each allocator, and the words that name it.
pub proof fn law_allocators_are_named(
    s: &str,
    r: Option<SlabAllocator>,
    a: SlabAllocator,
    name: &str,
)
    requires
        call_ensures(SlabAllocator::parse, (s,), r),
        call_ensures(SlabAllocator::slug, (a,), name),
    ensures
        name@ == (match a {
            SlabAllocator::System => "system"@,
            SlabAllocator::MadvHugepage => "madvise"@,
            SlabAllocator::Hugetlb => "hugetlb"@,
        }),
        ({
            let word = trimmed(s@);
            &&& word == "system"@ || word == "vec"@ ==> r == Some(SlabAllocator::System)
            &&& word == "madvise"@ || word == "madv_hugepage"@ || word == "madv-hugepage"@ ==> r
                == Some(SlabAllocator::MadvHugepage)
            &&& word == "hugetlb"@ || word == "map_hugetlb"@ || word == "map-hugetlb"@ ==> r
                == Some(SlabAllocator::Hugetlb)
            &&& r is Some ==> word == "system"@ || word == "vec"@ || word == "madvise"@ || word
                == "madv_hugepage"@ || word == "madv-hugepage"@ || word == "hugetlb"@ || word
                == "map_hugetlb"@ || word == "map-hugetlb"@
        }),
{
    reveal_strlit("system");
    reveal_strlit("vec");
    reveal_strlit("madvise");
    reveal_strlit("madv_hugepage");
    reveal_strlit("madv-hugepage");
    reveal_strlit("hugetlb");
    reveal_strlit("map_hugetlb");
    reveal_strlit("map-hugetlb");
    assert("system"@[0] == 's' && "vec"@[0] == 'v');
    assert("madvise"@[1] == 'a' && "madv_hugepage"@[1] == 'a' && "madv-hugepage"@[1] == 'a');
    assert("madvise"@[0] == 'm' && "madv_hugepage"@[0] == 'm' && "madv-hugepage"@[0] == 'm');
    assert("madvise"@[2] == 'd' && "madv_hugepage"@[2] == 'd' && "madv-hugepage"@[2] == 'd');
    assert("map_hugetlb"@[2] == 'p' && "map-hugetlb"@[2] == 'p' && "hugetlb"@[0] == 'h');
    assert("map_hugetlb"@[0] == 'm' && "map-hugetlb"@[0] == 'm');
}

/// The words that are read have white space around them taken off and nothing
/// else: it is a piece of the text that neither begins nor ends with white space,
/// and all around it is.
pub proof fn law_only_white_space_is_trimmed(s: Seq<char>) -> (at: (int, int))
    ensures
        ({
            let (a, b) = at;
            &&& 0 <= a <= b <= s.len()
            &&& trimmed(s) == s.subrange(a, b)
            &&& forall|i: int| 0 <= i < a || b <= i < s.len() ==> is_white(#[trigger] s[i])
            &&& a < b ==> !is_white(s[a]) && !is_white(s[b - 1])
        }),
{
    let a = lemma_lead(s);
    let rest = s.subrange(a, s.len() as int);
    let b = lemma_trail(rest);
    assert(rest.subrange(0, b) =~= s.subrange(a, a + b));
    assert forall|i: int| 0 <= i < a || a + b <= i < s.len() implies is_white(#[trigger] s[i]) by {
        if i >= a {
            assert(rest[i - a] == s[i]);
        }
    }
    if b > 0 {
        assert(rest[b - 1] == s[a + b - 1]);
        assert(rest[0] == s[a]);
    }
    (a, a + b)
}

proof fn lemma_lead(s: Seq<char>) -> (a: int)
    ensures
        0 <= a <= s.len(),
        without_lead(s) == s.subrange(a, s.len() as int),
        forall|i: int| 0 <= i < a ==> is_white(#[trigger] s[i]),
        a < s.len() ==> !is_white(s[a]),
    decreases s.len(),
{
    if s.len() > 0 && is_white(s[0]) {
        let rest = s.drop_first();
        let a = lemma_lead(rest);
        assert(rest.subrange(a, rest.len() as int) =~= s.subrange(a + 1, s.len() as int));
        assert forall|i: int| 0 <= i < a + 1 implies is_white(#[trigger] s[i]) by {
            if i > 0 {
                assert(rest[i - 1] == s[i]);
            }
        }
        a + 1
    } else {
        assert(s.subrange(0, s.len() as int) =~= s);
        0
    }
}

proof fn lemma_trail(s: Seq<char>) -> (b: int)
    ensures
        0 <= b <= s.len(),
        without_trail(s) == s.subrange(0, b),
        forall|i: int| b <= i < s.len() ==> is_white(#[trigger] s[i]),
        b > 0 ==> !is_white(s[b - 1]),
    decreases s.len(),
{
    if s.len() > 0 && is_white(s[s.len() - 1]) {
        let rest = s.drop_last();
        let b = lemma_trail(rest);
        assert(rest.subrange(0, b) =~= s.subrange(0, b));
        assert forall|i: int| b <= i < s.len() implies is_white(#[trigger] s[i]) by {
            if i < rest.len() {
                assert(rest[i] == s[i]);
            }
        }
        b
    } else {
        assert(s.subrange(0, s.len() as int) =~= s);
        s.len() as int
    }
}

/// What the mixer gives for a key depends on the last key alone: its upper bits
/// are folded onto its lower ones three times, and it is scaled by an odd number
/// between the folds.
pub proof fn law_mixer_folds_and_scales(mixer: &mut U64Mixer, n: u64, r: u64)
    requires
        call_ensures(U64Mixer::write_u64, (mixer, n), ()),
        call_ensures(U64Mixer::finish, (final(mixer),), r),
    ensures
        ({
            let a = n ^ (n >> 30);
            let b = a.wrapping_mul(0xbf58476d1ce4e5b9);
            let c = b ^ (b >> 27);
            let d = c.wrapping_mul(0x94d049bb133111eb);
            r == d ^ (d >> 31)
        }),
{
}

} // verus!
