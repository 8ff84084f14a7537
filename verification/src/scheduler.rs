//! The hierarchical scheduler: four timing wheels of increasing granularity.
//!
//! Level 0 covers the next 64 ticks one by one; level i (i >= 1) covers 64
//! buckets of 64^i ticks each. A timer is placed at the coarsest level whose
//! bucket for the timer's firing tick has not yet been passed, together with
//! a residual that records the position of the firing tick inside that
//! bucket. Whenever a level's cursor completes a revolution, the next coarser
//! level is drained ("cascaded"): its due bucket is emptied and every item is
//! re-inserted at a finer level according to its residual.
//!
//! The behaviour of the scheduler is captured by two spec functions:
//! `clock()` (the logical time, a base-64 reading of the four cursors, modulo
//! 64^4) and `due(k)` (the payloads that will be handed back by the advance
//! that runs `k + 1` ticks from now, in delivery order). `after` appends to
//! exactly one `due(k)` and `tick` returns `due(0)` and shifts `due` by one.

use vstd::arithmetic::div_mod::lemma_div_by_self;
use vstd::arithmetic::div_mod::lemma_div_is_ordered;
use vstd::arithmetic::div_mod::lemma_div_pos_is_pos;
use vstd::arithmetic::div_mod::lemma_fundamental_div_mod;
use vstd::arithmetic::div_mod::lemma_fundamental_div_mod_converse;
use vstd::arithmetic::div_mod::lemma_mod_add_multiples_vanish;
use vstd::arithmetic::div_mod::lemma_mod_division_less_than_divisor;
use vstd::arithmetic::mul::lemma_mul_is_commutative;
use vstd::arithmetic::mul::lemma_mul_is_distributive_sub;
use vstd::prelude::*;

use crate::wheel::TimingWheel;

verus! {

/// Why a call to `after` was rejected.
#[derive(Debug, PartialEq, Eq, Structural)]
pub enum ScheduleError {
    /// The delay exceeds the maximum representable span of 64^4 - 1 ticks.
    CapacityExceeded,
}

/// The payloads of a slot, in order, with the residuals dropped.
pub open spec fn payloads<T>(items: Seq<(usize, T)>) -> Seq<T> {
    items.map_values(|p: (usize, T)| p.1)
}

/// The payloads of the items of `items` whose residual equals `rr`, in order.
pub open spec fn sel<T>(items: Seq<(usize, T)>, rr: int) -> Seq<T>
    decreases items.len(),
{
    if items.len() == 0 {
        Seq::<T>::empty()
    } else {
        sel(items.drop_last(), rr) + if items.last().0 as int == rr {
            seq![items.last().1]
        } else {
            Seq::<T>::empty()
        }
    }
}

/// What the finest wheel contributes to the drain `k + 1` advances from now:
/// the whole slot `k` steps ahead of the cursor, if `k` is within one
/// revolution.
pub open spec fn l0_due<T>(slots: Seq<Seq<(usize, T)>>, cur: int, k: int) -> Seq<T> {
    if 0 <= k && k < 64 {
        payloads(slots[(cur + k) % 64])
    } else {
        Seq::<T>::empty()
    }
}

/// What a coarser wheel contributes to the drain `k + 1` advances from now.
///
/// `lead` is the number of advances until the wheel's next tick and `w` is
/// the width of one of its buckets (64^level). Its q-th tick from now, which
/// happens `lead + q*w` advances out, drains bucket `(cur + q) % 64`; an item
/// with residual `r` in that bucket is then re-inserted at finer levels so as
/// to fire `r` advances later still.
pub open spec fn level_due<T>(
    slots: Seq<Seq<(usize, T)>>,
    cur: int,
    lead: int,
    k: int,
    w: int,
) -> Seq<T> {
    if k >= lead && (k - lead) / w < 64 {
        sel(slots[(cur + (k - lead) / w) % 64], (k - lead) % w)
    } else {
        Seq::<T>::empty()
    }
}

/// Every residual stored in `slots` is below `w`.
pub open spec fn residuals_below<T>(slots: Seq<Seq<(usize, T)>>, w: int) -> bool {
    forall|b: int, i: int|
        0 <= b < 64 && 0 <= i < slots[b].len() ==> (#[trigger] slots[b][i]).0 < w
}

/// A tick-driven scheduler for one-shot timers with payloads of type `T`.
///
/// Delays from 0 (fire at the very next drain) up to 64^4 - 1 = 16777215
/// ticks are representable. The host must call `tick` exactly once per
/// logical step and run the returned payloads itself.
pub struct Timers<T> {
    l0: TimingWheel<T>,
    l1: TimingWheel<T>,
    l2: TimingWheel<T>,
    l3: TimingWheel<T>,
}

impl<T> Timers<T> {
    /// The logical clock, modulo 64^4: a base-64 reading of the four cursors.
    pub closed spec fn clock(self) -> int {
        self.l0.cur() + 64 * self.l1.cur() + 4096 * self.l2.cur() + 262144 * self.l3.cur()
    }

    /// Advances until level 1 next ticks (always in [1, 64]).
    pub closed spec fn lead1(self) -> int {
        64 - self.l0.cur()
    }

    /// Advances until level 2 next ticks (always in [1, 4096]).
    pub closed spec fn lead2(self) -> int {
        4096 - (self.l0.cur() + 64 * self.l1.cur())
    }

    /// Advances until level 3 next ticks (always in [1, 262144]).
    pub closed spec fn lead3(self) -> int {
        262144 - (self.l0.cur() + 64 * self.l1.cur() + 4096 * self.l2.cur())
    }

    /// The payloads delivered by the advance that runs `k + 1` ticks from
    /// now, in delivery order, for `k` in [0, 16777216).
    pub closed spec fn due(self, k: int) -> Seq<T> {
        l0_due(self.l0.slots(), self.l0.cur(), k) + level_due(
            self.l1.slots(),
            self.l1.cur(),
            self.lead1(),
            k,
            64,
        ) + level_due(self.l2.slots(), self.l2.cur(), self.lead2(), k, 4096) + level_due(
            self.l3.slots(),
            self.l3.cur(),
            self.lead3(),
            k,
            262144,
        )
    }

    pub closed spec fn wf(self) -> bool {
        &&& self.l0.wf()
        &&& self.l1.wf()
        &&& self.l2.wf()
        &&& self.l3.wf()
        &&& residuals_below(self.l1.slots(), 64)
        &&& residuals_below(self.l2.slots(), 4096)
        &&& residuals_below(self.l3.slots(), 262144)
        &&& forall|i: int|
            0 <= i < self.l3.slots()[(self.l3.cur() + 63) % 64].len()
                ==> (#[trigger] self.l3.slots()[(self.l3.cur() + 63) % 64][i]).0 + self.lead3()
                < 262144
    }

    /// A fresh scheduler: clock at 0, nothing pending.
    pub fn new() -> (t: Self)
        ensures
            t.wf(),
            t.clock() == 0,
            forall|k: int| 0 <= k < 16777216 ==> t.due(k) == Seq::<T>::empty(),
    {
        let t = Timers {
            l0: TimingWheel::new(),
            l1: TimingWheel::new(),
            l2: TimingWheel::new(),
            l3: TimingWheel::new(),
        };
        assert forall|k: int| 0 <= k < 16777216 implies t.due(k) == Seq::<T>::empty() by {
            assert(t.due(k) =~= Seq::<T>::empty());
        }
        t
    }
}

/// One advance of the scheduler, exactly as `tick`'s contract describes it:
/// `fired` is what the drain returned, `pre` and `post` the states around the
/// call.
pub open spec fn tick_step<T>(pre: Timers<T>, post: Timers<T>, fired: Seq<T>) -> bool {
    &&& fired == pre.due(0)
    &&& forall|k: int| 0 <= k < 16777215 ==> post.due(k) == pre.due(k + 1)
    &&& post.due(16777215) == Seq::<T>::empty()
}

/// After `i` advances, what is due at distance `k` is what was due at
/// distance `k + i` at the start.
proof fn lemma_run_shift<T>(states: Seq<Timers<T>>, fires: Seq<Seq<T>>, i: int, k: int)
    requires
        states.len() == fires.len() + 1,
        forall|j: int| 0 <= j < fires.len() ==> tick_step(states[j], states[j + 1], fires[j]),
        0 <= i <= fires.len(),
        0 <= k,
        k + i < 16777216,
    ensures
        states[i].due(k) == states[0].due(k + i),
    decreases i,
{
    if i > 0 {
        lemma_run_shift(states, fires, i - 1, k + 1);
        assert(tick_step(states[i - 1], states[i], fires[i - 1]));
    }
}

/// Delivery happens exactly on schedule: over any sequence of advances, the
/// i-th drain returns precisely what was due at distance `i` at the start.
/// A timer scheduled with delay `d` (which `after` appends to `due(d)`) is
/// therefore delivered by the advance that covers distance `d`, in scheduling
/// order within that tick, and by no other advance; timers with distinct
/// distances are never reordered across ticks.
pub proof fn lemma_run_delivers_due<T>(states: Seq<Timers<T>>, fires: Seq<Seq<T>>)
    requires
        states.len() == fires.len() + 1,
        fires.len() < 16777216,
        forall|j: int| 0 <= j < fires.len() ==> tick_step(states[j], states[j + 1], fires[j]),
    ensures
        forall|i: int| 0 <= i < fires.len() ==> fires[i] == states[0].due(i),
{
    assert forall|i: int| 0 <= i < fires.len() implies fires[i] == states[0].due(i) by {
        lemma_run_shift(states, fires, i, 0);
        assert(tick_step(states[i], states[i + 1], fires[i]));
    };
}

/// Wheel wraparound: sixty-four advances return the finest wheel's cursor to
/// its starting slot. `tick` moves the clock from `t` to `(t + 1) % 16777216`
/// and the level-0 cursor is the clock modulo 64, so after exactly 64
/// advances the cursor reads as it did before.
pub proof fn lemma_wheel_wraparound(t: int)
    requires
        0 <= t < 16777216,
    ensures
        ((t + 64) % 16777216) % 64 == t % 64,
{
    if t + 64 < 16777216 {
        lemma_fundamental_div_mod_converse(t + 64, 16777216, 0, t + 64);
        lemma_mod_add_multiples_vanish(t, 64);
    } else {
        lemma_fundamental_div_mod_converse(t + 64, 16777216, 1, t + 64 - 16777216);
        vstd::arithmetic::div_mod::lemma_mod_multiples_vanish(-262143, t, 64);
    }
}

impl<T> Default for Timers<T> {
    /// Same as `new`: clock at 0, nothing pending.
    fn default() -> (t: Self)
        ensures
            t.wf(),
            t.clock() == 0,
            forall|k: int| 0 <= k < 16777216 ==> t.due(k) == Seq::<T>::empty(),
    {
        Timers::new()
    }
}

/// A ring index reached by stepping `q < 64` slots from `cur`, concretely.
proof fn lemma_ring_index(cur: int, q: int)
    requires
        0 <= cur < 64,
        0 <= q < 64,
    ensures
        (cur + q) % 64 == if cur + q < 64 {
            cur + q
        } else {
            cur + q - 64
        },
        0 <= (cur + q) % 64 < 64,
{
    if cur + q < 64 {
        lemma_fundamental_div_mod_converse(cur + q, 64, 0, cur + q);
    } else {
        lemma_fundamental_div_mod_converse(cur + q, 64, 1, cur + q - 64);
    }
}

/// Two step counts below 64 reaching the same ring slot are equal.
proof fn lemma_ring_unique(cur: int, a: int, b: int)
    requires
        0 <= cur < 64,
        0 <= a < 64,
        0 <= b < 64,
        (cur + a) % 64 == (cur + b) % 64,
    ensures
        a == b,
{
    lemma_ring_index(cur, a);
    lemma_ring_index(cur, b);
}

/// Stepping `q - 1` slots from the advanced cursor is stepping `q` slots from
/// the old one.
proof fn lemma_ring_step(cur: int, q: int)
    requires
        0 <= cur < 64,
        1 <= q <= 64,
    ensures
        ((cur + 1) % 64 + (q - 1)) % 64 == (cur + q) % 64,
        q == 64 ==> (cur + q) % 64 == cur,
{
    lemma_ring_index(cur, 1);
    lemma_ring_index((cur + 1) % 64, q - 1);
    if q == 64 {
        lemma_mod_add_multiples_vanish(cur, 64);
        lemma_fundamental_div_mod_converse(cur, 64, 0, cur);
    } else {
        lemma_ring_index(cur, q);
    }
}

/// Subtracting one bucket width shifts the quotient down by one and keeps the
/// remainder.
proof fn lemma_step_shift(k: int, w: int)
    requires
        1 <= w,
        w <= k,
    ensures
        (k - w) / w == k / w - 1,
        (k - w) % w == k % w,
        1 <= k / w,
{
    lemma_fundamental_div_mod(k, w);
    lemma_mod_division_less_than_divisor(k, w);
    lemma_div_by_self(w);
    lemma_div_is_ordered(w, k, w);
    assert((k - w) == (k / w - 1) * w + k % w) by {
        lemma_mul_is_distributive_sub(w, k / w, 1);
        lemma_mul_is_commutative(k / w - 1, w);
        lemma_mul_is_commutative(k / w, w);
    };
    lemma_fundamental_div_mod_converse(k - w, w, k / w - 1, k % w);
}

/// How `sel` reacts to appending one item.
proof fn lemma_sel_push<T>(items: Seq<(usize, T)>, p: (usize, T), rr: int)
    ensures
        sel(items.push(p), rr) == sel(items, rr) + if p.0 as int == rr {
            seq![p.1]
        } else {
            Seq::<T>::empty()
        },
{
    assert(items.push(p).drop_last() =~= items);
    assert(items.push(p).last() == p);
}

/// A sequence with no item of residual `rr` selects to nothing.
proof fn lemma_sel_none<T>(items: Seq<(usize, T)>, rr: int)
    requires
        forall|i: int| 0 <= i < items.len() ==> (#[trigger] items[i]).0 as int != rr,
    ensures
        sel(items, rr) == Seq::<T>::empty(),
    decreases items.len(),
{
    if items.len() > 0 {
        assert(forall|i: int|
            0 <= i < items.drop_last().len() ==> (#[trigger] items.drop_last()[i]).0 as int != rr);
        lemma_sel_none(items.drop_last(), rr);
        assert(sel(items, rr) =~= Seq::<T>::empty());
    }
}

/// Appending an in-range residual keeps `residuals_below`.
proof fn lemma_residuals_push<T>(slots: Seq<Seq<(usize, T)>>, u: int, p: (usize, T), w: int)
    requires
        residuals_below(slots, w),
        slots.len() == 64,
        0 <= u < 64,
        p.0 < w,
    ensures
        residuals_below(slots.update(u, slots[u].push(p)), w),
{
    let slots2 = slots.update(u, slots[u].push(p));
    assert forall|b: int, i: int| 0 <= b < 64 && 0 <= i < slots2[b].len() implies (#[trigger] slots2[b][i]).0
        < w by {
        if b == u {
            if i < slots[u].len() {
                assert(slots2[b][i] == slots[u][i]);
            } else {
                assert(slots2[b][i] == p);
            }
        } else {
            assert(slots2[b][i] == slots[b][i]);
        }
    }
}

/// Inserting one item into the bucket of a coarser level that serves firing
/// distance `d` extends `level_due` at `d` and changes it nowhere else.
proof fn lemma_level_insert<T>(
    slots: Seq<Seq<(usize, T)>>,
    cur: int,
    lead: int,
    w: int,
    d: int,
    p: (usize, T),
)
    requires
        slots.len() == 64,
        0 <= cur < 64,
        1 <= lead,
        1 <= w,
        lead <= d,
        (d - lead) / w < 64,
        p.0 as int == (d - lead) % w,
    ensures
        level_due(
            slots.update(
                (cur + (d - lead) / w) % 64,
                slots[(cur + (d - lead) / w) % 64].push(p),
            ),
            cur,
            lead,
            d,
            w,
        ) == level_due(slots, cur, lead, d, w).push(p.1),
        forall|k: int|
            0 <= k && k != d ==> level_due(
                slots.update(
                    (cur + (d - lead) / w) % 64,
                    slots[(cur + (d - lead) / w) % 64].push(p),
                ),
                cur,
                lead,
                k,
                w,
            ) == level_due(slots, cur, lead, k, w),
{
    let qd = (d - lead) / w;
    let rd = (d - lead) % w;
    lemma_div_pos_is_pos(d - lead, w);
    lemma_mod_division_less_than_divisor(d - lead, w);
    lemma_fundamental_div_mod(d - lead, w);
    lemma_ring_index(cur, qd);
    let u = (cur + qd) % 64;
    let slots2 = slots.update(u, slots[u].push(p));
    lemma_sel_push(slots[u], p, rd);
    assert(level_due(slots2, cur, lead, d, w) == level_due(slots, cur, lead, d, w).push(p.1)) by {
        assert(sel(slots[u], rd) + seq![p.1] =~= sel(slots[u], rd).push(p.1));
    };
    assert forall|k: int| 0 <= k && k != d implies level_due(slots2, cur, lead, k, w) == level_due(
        slots,
        cur,
        lead,
        k,
        w,
    ) by {
        if k >= lead && (k - lead) / w < 64 {
            let qk = (k - lead) / w;
            let rk = (k - lead) % w;
            lemma_div_pos_is_pos(k - lead, w);
            lemma_mod_division_less_than_divisor(k - lead, w);
            lemma_ring_index(cur, qk);
            let b = (cur + qk) % 64;
            if b == u {
                lemma_ring_unique(cur, qk, qd);
                lemma_fundamental_div_mod(k - lead, w);
                assert(rk != rd);
                lemma_sel_push(slots[u], p, rk);
                assert(sel(slots2[b], rk) =~= sel(slots[b], rk));
            }
        }
    };
}

/// Draining the finest wheel's slot and advancing its cursor shifts its
/// contribution by one tick.
proof fn lemma_l0_shift<T>(slots: Seq<Seq<(usize, T)>>, cur: int, k: int)
    requires
        slots.len() == 64,
        0 <= cur < 64,
        0 <= k,
    ensures
        l0_due(slots.update(cur, Seq::<(usize, T)>::empty()), (cur + 1) % 64, k) == l0_due(
            slots,
            cur,
            k + 1,
        ),
{
    let slots2 = slots.update(cur, Seq::<(usize, T)>::empty());
    if k < 64 {
        lemma_ring_step(cur, k + 1);
        if k == 63 {
            assert(slots2[(cur + 64) % 64] =~= Seq::<(usize, T)>::empty());
            assert(payloads(Seq::<(usize, T)>::empty()) =~= Seq::<T>::empty());
        } else {
            lemma_ring_index(cur, k + 1);
            lemma_ring_index(cur, 0);
            if (cur + k + 1) % 64 == cur {
                lemma_ring_unique(cur, k + 1, 0);
            }
            assert(slots2[(cur + k + 1) % 64] == slots[(cur + k + 1) % 64]);
        }
    }
}

/// Draining a coarser wheel's bucket and advancing its cursor shifts its
/// contribution by one tick, except for the drained bucket itself, whose
/// items now fire within the bucket width according to their residuals.
proof fn lemma_level_tick<T>(slots: Seq<Seq<(usize, T)>>, cur: int, w: int, k: int)
    requires
        slots.len() == 64,
        0 <= cur < 64,
        1 <= w,
        0 <= k,
    ensures
        level_due(slots, cur, 1, k + 1, w) == level_due(
            slots.update(cur, Seq::<(usize, T)>::empty()),
            (cur + 1) % 64,
            w,
            k,
            w,
        ) + if k < w {
            sel(slots[cur], k)
        } else {
            Seq::<T>::empty()
        },
{
    let slots2 = slots.update(cur, Seq::<(usize, T)>::empty());
    let cur2 = (cur + 1) % 64;
    lemma_div_pos_is_pos(k, w);
    lemma_mod_division_less_than_divisor(k, w);
    let q = k / w;
    if k < w {
        lemma_fundamental_div_mod_converse(k, w, 0, k);
        lemma_ring_index(cur, 0);
        assert(level_due(slots, cur, 1, k + 1, w) == sel(slots[cur], k));
        assert(level_due(slots2, cur2, w, k, w) == Seq::<T>::empty());
        assert(Seq::<T>::empty() + sel(slots[cur], k) =~= sel(slots[cur], k));
    } else {
        lemma_step_shift(k, w);
        if q < 64 {
            lemma_ring_step(cur, q);
            let b = (cur + q) % 64;
            lemma_ring_index(cur, q);
            lemma_ring_index(cur, 0);
            if b == cur {
                lemma_ring_unique(cur, q, 0);
            }
            assert(slots2[b] == slots[b]);
            assert(level_due(slots, cur, 1, k + 1, w) == sel(slots[b], k % w));
            assert(level_due(slots2, cur2, w, k, w) == sel(slots[b], k % w));
            assert(sel(slots[b], k % w) + Seq::<T>::empty() =~= sel(slots[b], k % w));
        } else if q == 64 {
            lemma_ring_step(cur, 64);
            assert(slots2[cur] =~= Seq::<(usize, T)>::empty());
            assert(level_due(slots, cur, 1, k + 1, w) == Seq::<T>::empty());
            assert(level_due(slots2, cur2, w, k, w) == Seq::<T>::empty());
            assert(Seq::<T>::empty() + Seq::<T>::empty() =~= Seq::<T>::empty());
        } else {
            assert(level_due(slots, cur, 1, k + 1, w) == Seq::<T>::empty());
            assert(level_due(slots2, cur2, w, k, w) == Seq::<T>::empty());
            assert(Seq::<T>::empty() + Seq::<T>::empty() =~= Seq::<T>::empty());
        }
    }
}

/// A level that does not tick on this advance sees its contribution shift by
/// one tick as its lead shrinks by one.
proof fn lemma_level_untick<T>(slots: Seq<Seq<(usize, T)>>, cur: int, lead: int, w: int, k: int)
    requires
        2 <= lead,
        0 <= k,
    ensures
        level_due(slots, cur, lead - 1, k, w) == level_due(slots, cur, lead, k + 1, w),
{
    assert(k - (lead - 1) == (k + 1) - lead);
}

/// Emptying one slot keeps `residuals_below`.
proof fn lemma_residuals_empty<T>(slots: Seq<Seq<(usize, T)>>, c: int, w: int)
    requires
        residuals_below(slots, w),
        slots.len() == 64,
        0 <= c < 64,
    ensures
        residuals_below(slots.update(c, Seq::<(usize, T)>::empty()), w),
{
    let slots2 = slots.update(c, Seq::<(usize, T)>::empty());
    assert forall|b: int, i: int| 0 <= b < 64 && 0 <= i < slots2[b].len() implies (#[trigger] slots2[b][i]).0
        < w by {
        if b != c {
            assert(slots2[b][i] == slots[b][i]);
        }
    }
}

/// Distributing the drained buckets' contributions over the concatenation of
/// the four per-level parts: each term may be pulled to the end because every
/// part that would follow it is empty.
proof fn lemma_concat_shape<T>(
    a: Seq<T>,
    b: Seq<T>,
    c: Seq<T>,
    d: Seq<T>,
    t1: Seq<T>,
    t2: Seq<T>,
    t3: Seq<T>,
)
    requires
        t1.len() > 0 ==> c == Seq::<T>::empty() && d == Seq::<T>::empty(),
        t2.len() > 0 ==> d == Seq::<T>::empty(),
    ensures
        a + (b + t1) + (c + t2) + (d + t3) == a + b + c + d + t1 + t2 + t3,
{
    if t1.len() == 0 && t2.len() == 0 {
        assert(t1 =~= Seq::<T>::empty());
        assert(t2 =~= Seq::<T>::empty());
        assert(a + (b + t1) + (c + t2) + (d + t3) =~= a + b + c + d + t1 + t2 + t3);
    } else if t1.len() == 0 {
        assert(t1 =~= Seq::<T>::empty());
        assert(a + (b + t1) + (c + t2) + (d + t3) =~= a + b + c + d + t1 + t2 + t3);
    } else {
        assert(a + (b + t1) + (c + t2) + (d + t3) =~= a + b + c + d + t1 + t2 + t3);
    }
}

impl<T> Timers<T> {
    /// Route `timer` to the level and bucket that serve a firing distance of
    /// `delay` ticks, with the residual that reconstructs the finer position
    /// when the bucket is cascaded.
    fn place(&mut self, delay: usize, timer: T)
        requires
            old(self).wf(),
            delay < 16777216,
        ensures
            final(self).wf(),
            final(self).clock() == old(self).clock(),
            final(self).due(delay as int) == old(self).due(delay as int).push(timer),
            forall|k: int|
                0 <= k < 16777216 && k != delay as int ==> final(self).due(k) == old(self).due(k),
    {
        let ghost pre = *self;
        let ghost d = delay as int;
        let c0 = self.l0.position();
        let c1 = self.l1.position();
        let c2 = self.l2.position();
        let n1 = 64 - c0;
        let n2 = 4096 - (c0 + 64 * c1);
        let n3 = 262144 - ((c0 + 64 * c1) + 4096 * c2);
        if delay < n1 {
            self.l0.schedule(delay, 0, timer);
            proof {
                lemma_ring_index(c0 as int, d);
                assert(self.due(d) =~= pre.due(d).push(timer)) by {
                    assert(payloads(pre.l0.slots()[(c0 as int + d) % 64].push((0usize, timer)))
                        =~= payloads(pre.l0.slots()[(c0 as int + d) % 64]).push(timer));
                };
                assert forall|k: int| 0 <= k < 16777216 && k != d implies self.due(k) == pre.due(
                    k,
                ) by {
                    if 0 <= k < 64 {
                        lemma_ring_index(c0 as int, k);
                        if (c0 as int + k) % 64 == (c0 as int + d) % 64 {
                            lemma_ring_unique(c0 as int, k, d);
                        }
                        assert(self.l0.slots()[(c0 as int + k) % 64] == pre.l0.slots()[(c0 as int
                            + k) % 64]);
                    }
                };
            }
        } else if delay < n2 {
            let off = (delay - n1) / 64;
            let rem = (delay - n1) % 64;
            proof {
                lemma_div_pos_is_pos(d - n1 as int, 64);
                vstd::arithmetic::div_mod::lemma_multiply_divide_lt(d - n1 as int, 64, 64);
                lemma_mod_division_less_than_divisor(d - n1 as int, 64);
            }
            self.l1.schedule(off, rem, timer);
            proof {
                lemma_level_insert(pre.l1.slots(), c1 as int, n1 as int, 64, d, (rem, timer));
                lemma_residuals_push(
                    pre.l1.slots(),
                    (c1 as int + (d - n1 as int) / 64) % 64,
                    (rem, timer),
                    64,
                );
                assert(self.due(d) =~= pre.due(d).push(timer));
                assert forall|k: int| 0 <= k < 16777216 && k != d implies self.due(k) == pre.due(
                    k,
                ) by {
                    assert(level_due(self.l1.slots(), c1 as int, n1 as int, k, 64) == level_due(
                        pre.l1.slots(),
                        c1 as int,
                        n1 as int,
                        k,
                        64,
                    ));
                };
            }
        } else if delay < n3 {
            let off = (delay - n2) / 4096;
            let rem = (delay - n2) % 4096;
            proof {
                lemma_div_pos_is_pos(d - n2 as int, 4096);
                vstd::arithmetic::div_mod::lemma_multiply_divide_lt(d - n2 as int, 4096, 64);
                lemma_mod_division_less_than_divisor(d - n2 as int, 4096);
            }
            self.l2.schedule(off, rem, timer);
            proof {
                lemma_level_insert(pre.l2.slots(), c2 as int, n2 as int, 4096, d, (rem, timer));
                lemma_residuals_push(
                    pre.l2.slots(),
                    (c2 as int + (d - n2 as int) / 4096) % 64,
                    (rem, timer),
                    4096,
                );
                assert(self.due(d) =~= pre.due(d).push(timer));
                assert forall|k: int| 0 <= k < 16777216 && k != d implies self.due(k) == pre.due(
                    k,
                ) by {
                    assert(level_due(self.l2.slots(), c2 as int, n2 as int, k, 4096) == level_due(
                        pre.l2.slots(),
                        c2 as int,
                        n2 as int,
                        k,
                        4096,
                    ));
                };
            }
        } else {
            let off = (delay - n3) / 262144;
            let rem = (delay - n3) % 262144;
            proof {
                lemma_div_pos_is_pos(d - n3 as int, 262144);
                vstd::arithmetic::div_mod::lemma_multiply_divide_lt(d - n3 as int, 262144, 64);
                lemma_mod_division_less_than_divisor(d - n3 as int, 262144);
            }
            let ghost c3 = self.l3.cur();
            self.l3.schedule(off, rem, timer);
            proof {
                lemma_level_insert(pre.l3.slots(), c3, n3 as int, 262144, d, (rem, timer));
                lemma_residuals_push(
                    pre.l3.slots(),
                    (c3 + (d - n3 as int) / 262144) % 64,
                    (rem, timer),
                    262144,
                );
                lemma_fundamental_div_mod(d - n3 as int, 262144);
                lemma_ring_index(c3, (d - n3 as int) / 262144);
                lemma_ring_index(c3, 63);
                let u = (c3 + (d - n3 as int) / 262144) % 64;
                let crit = (c3 + 63) % 64;
                if u == crit {
                    lemma_ring_unique(c3, (d - n3 as int) / 262144, 63);
                }
                assert forall|i: int|
                    0 <= i < self.l3.slots()[crit].len() implies (#[trigger] self.l3.slots()[crit][i]).0
                    + self.lead3() < 262144 by {
                    if u == crit && i == self.l3.slots()[crit].len() - 1 {
                        assert(self.l3.slots()[crit][i] == (rem, timer));
                    } else {
                        assert(self.l3.slots()[crit][i] == pre.l3.slots()[crit][i]);
                    }
                };
                assert(self.due(d) =~= pre.due(d).push(timer));
                assert forall|k: int| 0 <= k < 16777216 && k != d implies self.due(k) == pre.due(
                    k,
                ) by {
                    assert(level_due(self.l3.slots(), c3, n3 as int, k, 262144) == level_due(
                        pre.l3.slots(),
                        c3,
                        n3 as int,
                        k,
                        262144,
                    ));
                };
            }
        }
    }

    /// Schedule `timer` to fire `after` ticks from now; a delay of 0 fires at
    /// the very next `tick`. A delay beyond the representable span of
    /// 64^4 - 1 ticks is rejected with `CapacityExceeded` and the scheduler
    /// is left untouched.
    pub fn after(&mut self, after: usize, timer: T) -> (r: Result<(), ScheduleError>)
        requires
            old(self).wf(),
        ensures
            final(self).wf(),
            final(self).clock() == old(self).clock(),
            after < 16777216 ==> {
                &&& r == Ok::<(), ScheduleError>(())
                &&& final(self).due(after as int) == old(self).due(after as int).push(timer)
                &&& forall|k: int|
                    0 <= k < 16777216 && k != after as int ==> final(self).due(k) == old(
                        self,
                    ).due(k)
            },
            after >= 16777216 ==> {
                &&& r == Err::<(), ScheduleError>(ScheduleError::CapacityExceeded)
                &&& *final(self) == *old(self)
            },
    {
        if after >= 16777216 {
            return Err(ScheduleError::CapacityExceeded);
        }
        self.place(after, timer);
        Ok(())
    }

    /// Advance one logical step: drain the slot of the finest wheel that is
    /// due now and hand back its payloads in insertion order. Whenever a
    /// cursor completes a revolution, the next coarser wheel is drained and
    /// every drained item is re-inserted at the level its residual dictates,
    /// so a timer is touched at most once per level on its way down. The host
    /// must call this exactly once per logical step and run the returned
    /// payloads itself.
    #[verifier::rlimit(50)]
    pub fn tick(&mut self) -> (fired: Vec<T>)
        requires
            old(self).wf(),
        ensures
            final(self).wf(),
            final(self).clock() == (old(self).clock() + 1) % 16777216,
            fired@ == old(self).due(0),
            forall|k: int| 0 <= k < 16777215 ==> final(self).due(k) == old(self).due(k + 1),
            final(self).due(16777215) == Seq::<T>::empty(),
    {
        let ghost s0 = *self;
        let ghost c0 = s0.l0.cur();
        let ghost c1 = s0.l1.cur();
        let ghost c2 = s0.l2.cur();
        let ghost c3 = s0.l3.cur();
        let mut fired_pairs = self.l0.tick();
        let mut b1: Vec<(usize, T)> = Vec::new();
        let mut b2: Vec<(usize, T)> = Vec::new();
        let mut b3: Vec<(usize, T)> = Vec::new();
        proof {
            lemma_ring_index(c0, 1);
        }
        if self.l0.position() == 0 {
            b1 = self.l1.tick();
            proof {
                lemma_ring_index(c1, 1);
            }
            if self.l1.position() == 0 {
                b2 = self.l2.tick();
                proof {
                    lemma_ring_index(c2, 1);
                }
                if self.l2.position() == 0 {
                    b3 = self.l3.tick();
                    proof {
                        lemma_ring_index(c3, 1);
                    }
                }
            }
        }
        let ghost st = *self;
        let ghost gb1 = b1@;
        let ghost gb2 = b2@;
        let ghost gb3 = b3@;
        proof {
            // Residual bounds of the drained buckets.
            assert forall|i: int| 0 <= i < gb1.len() implies (#[trigger] gb1[i]).0 < 64 by {
                assert(gb1[i] == s0.l1.slots()[c1][i]);
            };
            assert forall|i: int| 0 <= i < gb2.len() implies (#[trigger] gb2[i]).0 < 4096 by {
                assert(gb2[i] == s0.l2.slots()[c2][i]);
            };
            assert forall|i: int| 0 <= i < gb3.len() implies (#[trigger] gb3[i]).0 < 262144 by {
                assert(gb3[i] == s0.l3.slots()[c3][i]);
            };
            // The clock advanced by one, modulo the span.
            if c0 < 63 {
                lemma_fundamental_div_mod_converse(s0.clock() + 1, 16777216, 0, s0.clock() + 1);
            } else if c1 < 63 {
                lemma_fundamental_div_mod_converse(s0.clock() + 1, 16777216, 0, s0.clock() + 1);
            } else if c2 < 63 {
                lemma_fundamental_div_mod_converse(s0.clock() + 1, 16777216, 0, s0.clock() + 1);
            } else if c3 < 63 {
                lemma_fundamental_div_mod_converse(s0.clock() + 1, 16777216, 0, s0.clock() + 1);
            } else {
                lemma_fundamental_div_mod_converse(16777216, 16777216, 1, 0);
            }
            assert(st.clock() == (s0.clock() + 1) % 16777216);
            // The intermediate state is well-formed.
            if c0 == 63 {
                lemma_residuals_empty(s0.l1.slots(), c1, 64);
                if c1 == 63 {
                    lemma_residuals_empty(s0.l2.slots(), c2, 4096);
                    if c2 == 63 {
                        lemma_residuals_empty(s0.l3.slots(), c3, 262144);
                    }
                }
            }
            lemma_ring_index(c3, 63);
            if c0 == 63 && c1 == 63 && c2 == 63 {
                lemma_ring_step(c3, 64);
                assert(st.l3.slots()[(st.l3.cur() + 63) % 64] =~= Seq::<(usize, T)>::empty());
            } else {
                assert forall|i: int|
                    0 <= i < st.l3.slots()[(st.l3.cur() + 63) % 64].len() implies (
                #[trigger] st.l3.slots()[(st.l3.cur() + 63) % 64][i]).0 + st.lead3()
                    < 262144 by {
                    assert(st.l3.slots()[(st.l3.cur() + 63) % 64][i] == s0.l3.slots()[(c3 + 63)
                        % 64][i]);
                };
            }
            assert(st.wf());
            // Nothing is due at the farthest representable distance.
            assert(st.due(16777215) == Seq::<T>::empty()) by {
                lemma_div_is_ordered(4096, 16777215 - st.lead1(), 64);
                lemma_fundamental_div_mod_converse(4096, 64, 64, 0);
                lemma_div_is_ordered(262144, 16777215 - st.lead2(), 4096);
                lemma_fundamental_div_mod_converse(262144, 4096, 64, 0);
                lemma_ring_index(st.l3.cur(), 63);
                if st.lead3() <= 262143 {
                    lemma_fundamental_div_mod_converse(
                        16777215 - st.lead3(),
                        262144,
                        63,
                        262143 - st.lead3(),
                    );
                    assert(st.l3.slots() == s0.l3.slots() && st.l3.cur() == c3 && st.lead3()
                        == s0.lead3() - 1);
                    lemma_sel_none(st.l3.slots()[(c3 + 63) % 64], 262143 - st.lead3());
                } else {
                    lemma_fundamental_div_mod_converse(16777215 - 262144, 262144, 62, 262143);
                    lemma_ring_step(c3, 63);
                    lemma_ring_index(c3, 0);
                    if (c3 + 63) % 64 == c3 {
                        lemma_ring_unique(c3, 63, 0);
                    }
                    assert(st.l3.slots()[(st.l3.cur() + 62) % 64] == s0.l3.slots()[(c3 + 63)
                        % 64]);
                    lemma_sel_none(s0.l3.slots()[(c3 + 63) % 64], 262143);
                }
                assert(Seq::<T>::empty() + Seq::<T>::empty() + Seq::<T>::empty()
                    + Seq::<T>::empty() =~= Seq::<T>::empty());
            };
            // The whole due function shifts by one, up to the drained buckets.
            assert forall|k: int| 0 <= k < 16777215 implies s0.due(k + 1) == st.due(k) + sel(
                gb1,
                k,
            ) + sel(gb2, k) + sel(gb3, k) by {
                lemma_l0_shift(s0.l0.slots(), c0, k);
                if k >= 64 {
                    lemma_sel_none(gb1, k);
                }
                if k >= 4096 {
                    lemma_sel_none(gb2, k);
                }
                if k >= 262144 {
                    lemma_sel_none(gb3, k);
                }
                if c0 == 63 {
                    lemma_level_tick(s0.l1.slots(), c1, 64, k);
                } else {
                    lemma_level_untick(s0.l1.slots(), c1, 64 - c0, 64, k);
                    assert(sel(gb1, k) == Seq::<T>::empty());
                }
                assert(level_due(s0.l1.slots(), c1, s0.lead1(), k + 1, 64) == level_due(
                    st.l1.slots(),
                    st.l1.cur(),
                    st.lead1(),
                    k,
                    64,
                ) + sel(gb1, k)) by {
                    if c0 != 63 {
                        assert(level_due(st.l1.slots(), st.l1.cur(), st.lead1(), k, 64)
                            + Seq::<T>::empty() =~= level_due(
                            st.l1.slots(),
                            st.l1.cur(),
                            st.lead1(),
                            k,
                            64,
                        ));
                    }
                };
                if c0 == 63 && c1 == 63 {
                    lemma_level_tick(s0.l2.slots(), c2, 4096, k);
                } else {
                    lemma_level_untick(s0.l2.slots(), c2, s0.lead2(), 4096, k);
                    assert(sel(gb2, k) == Seq::<T>::empty());
                }
                assert(level_due(s0.l2.slots(), c2, s0.lead2(), k + 1, 4096) == level_due(
                    st.l2.slots(),
                    st.l2.cur(),
                    st.lead2(),
                    k,
                    4096,
                ) + sel(gb2, k)) by {
                    if !(c0 == 63 && c1 == 63) {
                        assert(level_due(st.l2.slots(), st.l2.cur(), st.lead2(), k, 4096)
                            + Seq::<T>::empty() =~= level_due(
                            st.l2.slots(),
                            st.l2.cur(),
                            st.lead2(),
                            k,
                            4096,
                        ));
                    }
                };
                if c0 == 63 && c1 == 63 && c2 == 63 {
                    lemma_level_tick(s0.l3.slots(), c3, 262144, k);
                } else {
                    lemma_level_untick(s0.l3.slots(), c3, s0.lead3(), 262144, k);
                    assert(sel(gb3, k) == Seq::<T>::empty());
                }
                assert(level_due(s0.l3.slots(), c3, s0.lead3(), k + 1, 262144) == level_due(
                    st.l3.slots(),
                    st.l3.cur(),
                    st.lead3(),
                    k,
                    262144,
                ) + sel(gb3, k)) by {
                    if !(c0 == 63 && c1 == 63 && c2 == 63) {
                        assert(level_due(st.l3.slots(), st.l3.cur(), st.lead3(), k, 262144)
                            + Seq::<T>::empty() =~= level_due(
                            st.l3.slots(),
                            st.l3.cur(),
                            st.lead3(),
                            k,
                            262144,
                        ));
                    }
                };
                let aa = l0_due(st.l0.slots(), st.l0.cur(), k);
                let bb = level_due(st.l1.slots(), st.l1.cur(), st.lead1(), k, 64);
                let cc = level_due(st.l2.slots(), st.l2.cur(), st.lead2(), k, 4096);
                let dd = level_due(st.l3.slots(), st.l3.cur(), st.lead3(), k, 262144);
                if sel(gb1, k).len() > 0 {
                    assert(c0 == 63 && k < 64);
                    assert(cc == Seq::<T>::empty());
                    assert(dd == Seq::<T>::empty());
                }
                if sel(gb2, k).len() > 0 {
                    assert(c0 == 63 && c1 == 63 && k < 4096);
                    assert(dd == Seq::<T>::empty());
                }
                lemma_concat_shape(aa, bb, cc, dd, sel(gb1, k), sel(gb2, k), sel(gb3, k));
            };
        }
        // Re-insert the cascaded items, one level after another, preserving
        // the order of each drained bucket.
        proof {
            assert forall|k: int| 0 <= k < 16777216 implies self.due(k) == st.due(k) + sel(
                gb1.take(0),
                k,
            ) by {
                assert(gb1.take(0) =~= Seq::<(usize, T)>::empty());
                assert(st.due(k) + sel(gb1.take(0), k) =~= st.due(k));
            };
            assert(b1@ =~= gb1.skip(0));
        }
        while b1.len() > 0
            invariant
                self.wf(),
                self.clock() == st.clock(),
                gb1.len() >= b1@.len(),
                b1@ == gb1.skip(gb1.len() - b1@.len()),
                forall|i: int| 0 <= i < gb1.len() ==> (#[trigger] gb1[i]).0 < 64,
                forall|k: int|
                    0 <= k < 16777216 ==> self.due(k) == st.due(k) + sel(
                        gb1.take(gb1.len() - b1@.len()),
                        k,
                    ),
            decreases b1@.len(),
        {
            let ghost i: int = gb1.len() - b1@.len();
            let ghost mid = *self;
            let p = b1.remove(0);
            proof {
                assert(gb1.skip(i)[0] == gb1[i]);
                assert(p == gb1[i]);
                assert(b1@ =~= gb1.skip(i + 1));
            }
            self.place(p.0, p.1);
            proof {
                assert(gb1.take(i + 1) =~= gb1.take(i).push(gb1[i]));
                assert forall|k: int| 0 <= k < 16777216 implies self.due(k) == st.due(k) + sel(
                    gb1.take(i + 1),
                    k,
                ) by {
                    lemma_sel_push(gb1.take(i), gb1[i], k);
                    if k == p.0 as int {
                        assert(self.due(k) == mid.due(k).push(p.1));
                        assert((st.due(k) + sel(gb1.take(i), k)).push(p.1) =~= st.due(k) + (sel(
                            gb1.take(i),
                            k,
                        ) + seq![p.1]));
                    } else {
                        assert(self.due(k) == mid.due(k));
                        assert(sel(gb1.take(i), k) + Seq::<T>::empty() =~= sel(gb1.take(i), k));
                    }
                };
            }
        }
        let ghost st2 = *self;
        proof {
            assert(gb1.take(gb1.len() as int) =~= gb1);
            assert(forall|k: int| 0 <= k < 16777216 ==> st2.due(k) == st.due(k) + sel(gb1, k));
            assert forall|k: int| 0 <= k < 16777216 implies self.due(k) == st2.due(k) + sel(
                gb2.take(0),
                k,
            ) by {
                assert(gb2.take(0) =~= Seq::<(usize, T)>::empty());
                assert(st2.due(k) + sel(gb2.take(0), k) =~= st2.due(k));
            };
            assert(b2@ =~= gb2.skip(0));
        }
        while b2.len() > 0
            invariant
                self.wf(),
                self.clock() == st2.clock(),
                gb2.len() >= b2@.len(),
                b2@ == gb2.skip(gb2.len() - b2@.len()),
                forall|i: int| 0 <= i < gb2.len() ==> (#[trigger] gb2[i]).0 < 4096,
                forall|k: int|
                    0 <= k < 16777216 ==> self.due(k) == st2.due(k) + sel(
                        gb2.take(gb2.len() - b2@.len()),
                        k,
                    ),
            decreases b2@.len(),
        {
            let ghost i: int = gb2.len() - b2@.len();
            let ghost mid = *self;
            let p = b2.remove(0);
            proof {
                assert(gb2.skip(i)[0] == gb2[i]);
                assert(p == gb2[i]);
                assert(b2@ =~= gb2.skip(i + 1));
            }
            self.place(p.0, p.1);
            proof {
                assert(gb2.take(i + 1) =~= gb2.take(i).push(gb2[i]));
                assert forall|k: int| 0 <= k < 16777216 implies self.due(k) == st2.due(k) + sel(
                    gb2.take(i + 1),
                    k,
                ) by {
                    lemma_sel_push(gb2.take(i), gb2[i], k);
                    if k == p.0 as int {
                        assert(self.due(k) == mid.due(k).push(p.1));
                        assert((st2.due(k) + sel(gb2.take(i), k)).push(p.1) =~= st2.due(k) + (sel(
                            gb2.take(i),
                            k,
                        ) + seq![p.1]));
                    } else {
                        assert(self.due(k) == mid.due(k));
                        assert(sel(gb2.take(i), k) + Seq::<T>::empty() =~= sel(gb2.take(i), k));
                    }
                };
            }
        }
        let ghost st3 = *self;
        proof {
            assert(gb2.take(gb2.len() as int) =~= gb2);
            assert(forall|k: int| 0 <= k < 16777216 ==> st3.due(k) == st2.due(k) + sel(gb2, k));
            assert forall|k: int| 0 <= k < 16777216 implies self.due(k) == st3.due(k) + sel(
                gb3.take(0),
                k,
            ) by {
                assert(gb3.take(0) =~= Seq::<(usize, T)>::empty());
                assert(st3.due(k) + sel(gb3.take(0), k) =~= st3.due(k));
            };
            assert(b3@ =~= gb3.skip(0));
        }
        while b3.len() > 0
            invariant
                self.wf(),
                self.clock() == st3.clock(),
                gb3.len() >= b3@.len(),
                b3@ == gb3.skip(gb3.len() - b3@.len()),
                forall|i: int| 0 <= i < gb3.len() ==> (#[trigger] gb3[i]).0 < 262144,
                forall|k: int|
                    0 <= k < 16777216 ==> self.due(k) == st3.due(k) + sel(
                        gb3.take(gb3.len() - b3@.len()),
                        k,
                    ),
            decreases b3@.len(),
        {
            let ghost i: int = gb3.len() - b3@.len();
            let ghost mid = *self;
            let p = b3.remove(0);
            proof {
                assert(gb3.skip(i)[0] == gb3[i]);
                assert(p == gb3[i]);
                assert(b3@ =~= gb3.skip(i + 1));
            }
            self.place(p.0, p.1);
            proof {
                assert(gb3.take(i + 1) =~= gb3.take(i).push(gb3[i]));
                assert forall|k: int| 0 <= k < 16777216 implies self.due(k) == st3.due(k) + sel(
                    gb3.take(i + 1),
                    k,
                ) by {
                    lemma_sel_push(gb3.take(i), gb3[i], k);
                    if k == p.0 as int {
                        assert(self.due(k) == mid.due(k).push(p.1));
                        assert((st3.due(k) + sel(gb3.take(i), k)).push(p.1) =~= st3.due(k) + (sel(
                            gb3.take(i),
                            k,
                        ) + seq![p.1]));
                    } else {
                        assert(self.due(k) == mid.due(k));
                        assert(sel(gb3.take(i), k) + Seq::<T>::empty() =~= sel(gb3.take(i), k));
                    }
                };
            }
        }
        proof {
            assert(gb3.take(gb3.len() as int) =~= gb3);
            assert(forall|k: int|
                0 <= k < 16777216 ==> self.due(k) == st3.due(k) + sel(gb3, k));
            assert forall|k: int| 0 <= k < 16777215 implies self.due(k) == s0.due(k + 1) by {
                assert(self.due(k) == st.due(k) + sel(gb1, k) + sel(gb2, k) + sel(gb3, k));
            };
            assert(self.due(16777215) == Seq::<T>::empty()) by {
                lemma_sel_none(gb1, 16777215);
                lemma_sel_none(gb2, 16777215);
                lemma_sel_none(gb3, 16777215);
                assert(st.due(16777215) + sel(gb1, 16777215) + sel(gb2, 16777215) + sel(
                    gb3,
                    16777215,
                ) =~= st.due(16777215));
            };
        }
        // Hand the drained payloads back in insertion order.
        let ghost gf = fired_pairs@;
        let mut fired: Vec<T> = Vec::new();
        proof {
            lemma_ring_index(c0, 0);
            assert(s0.due(0) =~= payloads(s0.l0.slots()[c0]));
            assert(gf.take(0) =~= Seq::<(usize, T)>::empty());
            assert(payloads(gf.take(0)) =~= Seq::<T>::empty());
            assert(fired_pairs@ =~= gf.skip(0));
        }
        while fired_pairs.len() > 0
            invariant
                gf.len() >= fired_pairs@.len(),
                fired_pairs@ == gf.skip(gf.len() - fired_pairs@.len()),
                fired@ == payloads(gf.take(gf.len() - fired_pairs@.len())),
            decreases fired_pairs@.len(),
        {
            let ghost i: int = gf.len() - fired_pairs@.len();
            let p = fired_pairs.remove(0);
            proof {
                assert(gf.skip(i)[0] == gf[i]);
                assert(p == gf[i]);
                assert(fired_pairs@ =~= gf.skip(i + 1));
            }
            fired.push(p.1);
            proof {
                assert(gf.take(i + 1) =~= gf.take(i).push(gf[i]));
                assert(payloads(gf.take(i).push(gf[i])) =~= payloads(gf.take(i)).push(gf[i].1));
            }
        }
        proof {
            assert(gf.take(gf.len() as int) =~= gf);
        }
        fired
    }

    /// Schedule `timer` to fire at the very next `tick`: the same as a delay
    /// of zero, which is always representable.
    pub fn now(&mut self, timer: T)
        requires
            old(self).wf(),
        ensures
            final(self).wf(),
            final(self).clock() == old(self).clock(),
            final(self).due(0) == old(self).due(0).push(timer),
            forall|k: int| 0 < k < 16777216 ==> final(self).due(k) == old(self).due(k),
    {
        let r = self.after(0, timer);
        proof {
            assert(r == Ok::<(), ScheduleError>(()));
        }
    }
}

} // verus!
