//! Pure operations that synthesise and recombine glyphs.

use vstd::prelude::*;
use vstd::arithmetic::mul::{lemma_mul_inequality, lemma_mul_is_distributive_add_other_way};
use crate::event::{Ev, END_GLYPH, MOTOR_COUNT, is_glyph, duration};

verus! {

/// `equal_spaced_evs(triggers, s)`: one event per trigger at `i * s`, then the
/// sentinel at `len * s`.
pub open spec fn equal_spaced(triggers: Seq<u8>, s: u16) -> Seq<Ev> {
    Seq::new(
        triggers.len() + 1,
        |i: int|
            Ev {
                ms_time: (i * s) as u16,
                ev_type: if i < triggers.len() { triggers[i] } else { END_GLYPH },
            },
    )
}

/// `retime_eq_spaced(g, s)`: the same tags in the same order, the i-th at `i * s`.
pub open spec fn retimed(g: Seq<Ev>, s: u16) -> Seq<Ev> {
    Seq::new(g.len(), |i: int| Ev { ms_time: (i * s) as u16, ev_type: g[i].ev_type })
}

proof fn lemma_step_bound(i: int, n: int, s: int)
    requires
        0 <= i <= n,
        0 <= s,
    ensures
        i * s <= n * s,
        (i + 1) * s == i * s + s,
{
    lemma_mul_inequality(i, n, s);
    lemma_mul_is_distributive_add_other_way(s, i, 1);
}

/// Equal spacing of motor indices gives a well-formed glyph that lasts
/// `len * s`.
pub proof fn lemma_equal_spaced_glyph(triggers: Seq<u8>, s: u16)
    requires
        forall|i: int| 0 <= i < triggers.len() ==> #[trigger] triggers[i] < MOTOR_COUNT,
        triggers.len() * s <= u16::MAX,
    ensures
        is_glyph(equal_spaced(triggers, s)),
        duration(equal_spaced(triggers, s)) == triggers.len() * s,
{
    let g = equal_spaced(triggers, s);
    let n = triggers.len() as int;
    assert forall|i: int| 0 <= i <= n implies (#[trigger] g[i]).ms_time == i * s by {
        lemma_step_bound(i, n, s as int);
    }
    assert forall|i: int, j: int| 0 <= i <= j < g.len() implies #[trigger] g[i].ms_time
        <= #[trigger] g[j].ms_time by {
        assert(g[i].ms_time == i * s);
        assert(g[j].ms_time == j * s);
        lemma_mul_inequality(i, j, s as int);
    }
    assert forall|i: int| 0 <= i < g.len() - 1 implies #[trigger] g[i].ev_type < MOTOR_COUNT by {
        assert(g[i].ev_type == triggers[i]);
    }
    assert(g.last() == g[n]);
}

/// Builds a glyph that plays `evs` one after the other, `space_ms` apart,
/// and ends `space_ms` after the last trigger.
pub fn equal_spaced_evs(evs: &[u8], space_ms: u16) -> (r: Vec<Ev>)
    requires
        evs@.len() * space_ms <= u16::MAX,
    ensures
        r@ == equal_spaced(evs@, space_ms),
        r@.len() == evs@.len() + 1,
        forall|i: int|
            0 <= i < evs@.len() ==> (#[trigger] r@[i]).ms_time == i * space_ms
                && r@[i].ev_type == evs@[i],
        r@.last() == (Ev { ms_time: (evs@.len() * space_ms) as u16, ev_type: END_GLYPH }),
        r@.last().ms_time == evs@.len() * space_ms,
{
    let n = evs.len();
    let mut out: Vec<Ev> = Vec::new();
    let mut t: u16 = 0;
    let mut i: usize = 0;
    while i < n
        invariant
            n == evs@.len(),
            n * space_ms <= u16::MAX,
            i <= n,
            t == i * space_ms,
            out@.len() == i,
            forall|k: int| 0 <= k < i ==> #[trigger] out@[k] == equal_spaced(evs@, space_ms)[k],
        decreases n - i,
    {
        proof {
            lemma_step_bound(i as int, n as int, space_ms as int);
            lemma_step_bound(i as int + 1, n as int, space_ms as int);
        }
        out.push(Ev::new(t, evs[i]));
        t = t + space_ms;
        i = i + 1;
    }
    out.push(Ev::new(t, END_GLYPH));
    assert(out@ == equal_spaced(evs@, space_ms));
    assert forall|k: int| 0 <= k < n implies (#[trigger] out@[k]).ms_time == k * space_ms by {
        lemma_step_bound(k, n as int, space_ms as int);
    }
    out
}

/// Keeps the order and the tags of `glyph` and places its events
/// `space_ms` apart, the first at 0; the glyph's own timing is dropped.
pub fn retime_eq_spaced(glyph: &[Ev], space_ms: u16) -> (r: Vec<Ev>)
    requires
        glyph@.len() == 0 || (glyph@.len() - 1) * space_ms <= u16::MAX,
    ensures
        r@ == retimed(glyph@, space_ms),
        r@.len() == glyph@.len(),
        forall|i: int|
            0 <= i < glyph@.len() ==> (#[trigger] r@[i]).ms_time == i * space_ms
                && r@[i].ev_type == glyph@[i].ev_type,
{
    let n = glyph.len();
    let mut out: Vec<Ev> = Vec::new();
    let mut t: u16 = 0;
    let mut i: usize = 0;
    while i < n
        invariant
            n == glyph@.len(),
            n == 0 || (n - 1) * space_ms <= u16::MAX,
            i <= n,
            i < n ==> t == i * space_ms,
            out@.len() == i,
            forall|k: int| 0 <= k < i ==> #[trigger] out@[k] == retimed(glyph@, space_ms)[k],
        decreases n - i,
    {
        out.push(Ev::new(t, glyph[i].ev_type));
        if i + 1 < n {
            proof {
                lemma_step_bound(i as int, n as int - 1, space_ms as int);
                lemma_step_bound(i as int + 1, n as int - 1, space_ms as int);
            }
            t = t + space_ms;
        }
        i = i + 1;
    }
    assert(out@ == retimed(glyph@, space_ms));
    assert forall|k: int| 0 <= k < n implies (#[trigger] out@[k]).ms_time == k * space_ms by {
        lemma_step_bound(k, n as int - 1, space_ms as int);
    }
    out
}

/// The duration of a glyph: the timestamp of its last event, 0 when empty.
/// The last event is not checked to be the sentinel.
pub fn glyph_duration(glyph: &[Ev]) -> (r: u16)
    ensures
        r == duration(glyph@),
{
    if glyph.len() == 0 {
        0
    } else {
        glyph[glyph.len() - 1].ms_time
    }
}

/// The glyphs of `gs` laid end to end, sentinels included.
pub open spec fn joined(gs: Seq<Seq<Ev>>) -> Seq<Ev>
    decreases gs.len(),
{
    if gs.len() == 0 {
        Seq::empty()
    } else {
        joined(gs.drop_last()) + gs.last()
    }
}

/// The clock after replaying `evs`: the sum of the timestamps of its sentinels.
pub open spec fn clock_after(evs: Seq<Ev>) -> int
    decreases evs.len(),
{
    if evs.len() == 0 {
        0
    } else {
        clock_after(evs.drop_last()) + if evs.last().ev_type == END_GLYPH {
            evs.last().ms_time as int
        } else {
            0
        }
    }
}

/// The triggers of `evs`, each moved later by the clock at its place; the
/// sentinels are dropped.
pub open spec fn shifted_triggers(evs: Seq<Ev>) -> Seq<Ev>
    decreases evs.len(),
{
    if evs.len() == 0 {
        Seq::empty()
    } else {
        let rest = shifted_triggers(evs.drop_last());
        let e = evs.last();
        if e.ev_type == END_GLYPH {
            rest
        } else {
            rest.push(Ev { ms_time: (e.ms_time + clock_after(evs.drop_last())) as u16, ev_type: e.ev_type })
        }
    }
}

/// Every timestamp that replaying `evs` computes fits in 16 bits.
pub open spec fn stitch_fits(evs: Seq<Ev>) -> bool
    decreases evs.len(),
{
    if evs.len() == 0 {
        true
    } else {
        &&& stitch_fits(evs.drop_last())
        &&& if evs.last().ev_type == END_GLYPH {
            clock_after(evs) <= u16::MAX
        } else {
            evs.last().ms_time + clock_after(evs.drop_last()) <= u16::MAX
        }
    }
}

/// `stitch_evs(gs)`: the shifted triggers of all glyphs, then one sentinel at
/// the final clock.
pub open spec fn stitched(gs: Seq<Seq<Ev>>) -> Seq<Ev> {
    shifted_triggers(joined(gs)).push(Ev { ms_time: clock_after(joined(gs)) as u16, ev_type: END_GLYPH })
}

/// The contents of a slice of glyphs.
pub open spec fn glyph_views(gs: Seq<&[Ev]>) -> Seq<Seq<Ev>> {
    gs.map_values(|g: &[Ev]| g@)
}

proof fn lemma_joined_concat(a: Seq<Seq<Ev>>, b: Seq<Seq<Ev>>)
    ensures
        joined(a + b) == joined(a) + joined(b),
    decreases b.len(),
{
    if b.len() == 0 {
        assert(a + b =~= a);
        assert(joined(a) + joined(b) =~= joined(a));
    } else {
        assert((a + b).drop_last() =~= a + b.drop_last());
        lemma_joined_concat(a, b.drop_last());
        assert(joined(a + b) =~= joined(a) + joined(b));
    }
}

proof fn lemma_fits_prefix(evs: Seq<Ev>, n: int)
    requires
        stitch_fits(evs),
        0 <= n <= evs.len(),
    ensures
        stitch_fits(evs.take(n)),
    decreases evs.len(),
{
    if n == evs.len() {
        assert(evs.take(n) =~= evs);
    } else {
        assert(evs.drop_last().take(n) =~= evs.take(n));
        lemma_fits_prefix(evs.drop_last(), n);
    }
}

/// Plays `glyphs` back to back as one glyph: each glyph's triggers keep
/// their timing relative to its start, each glyph starts when the one before
/// it ends, and one sentinel closes the whole at the summed durations.
pub fn stitch_evs(glyphs: &[&[Ev]]) -> (r: Vec<Ev>)
    requires
        stitch_fits(joined(glyph_views(glyphs@))),
    ensures
        r@ == stitched(glyph_views(glyphs@)),
{
    let ghost gs = glyph_views(glyphs@);
    let ghost whole = joined(gs);
    let mut out: Vec<Ev> = Vec::new();
    let mut time: u16 = 0;
    let mut gi: usize = 0;
    while gi < glyphs.len()
        invariant
            gs == glyph_views(glyphs@),
            whole == joined(gs),
            stitch_fits(whole),
            gi <= glyphs@.len(),
            out@ == shifted_triggers(joined(gs.take(gi as int))),
            time == clock_after(joined(gs.take(gi as int))),
        decreases glyphs@.len() - gi,
    {
        let g: &[Ev] = glyphs[gi];
        let ghost before = joined(gs.take(gi as int));
        let ghost cur = before + g@;
        proof {
            assert(gs.take(gi + 1).drop_last() =~= gs.take(gi as int));
            assert(joined(gs.take(gi + 1)) == cur);
            assert(gs =~= gs.take(gi + 1) + gs.skip(gi + 1));
            lemma_joined_concat(gs.take(gi + 1), gs.skip(gi + 1));
            assert(whole.take(cur.len() as int) =~= cur);
            lemma_fits_prefix(whole, cur.len() as int);
            assert(cur.take(before.len() as int) =~= before);
        }
        let mut ei: usize = 0;
        while ei < g.len()
            invariant
                stitch_fits(cur),
                cur == before + g@,
                ei <= g@.len(),
                out@ == shifted_triggers(cur.take(before.len() + ei)),
                time == clock_after(cur.take(before.len() + ei)),
            decreases g@.len() - ei,
        {
            let ev = g[ei];
            let ghost done = cur.take(before.len() + ei);
            let ghost next = cur.take(before.len() + ei + 1);
            proof {
                assert(next.drop_last() =~= done);
                assert(next.last() == ev);
                lemma_fits_prefix(cur, before.len() + ei + 1);
            }
            if ev.ev_type == END_GLYPH {
                time = time + ev.ms_time;
            } else {
                out.push(Ev::new(ev.ms_time + time, ev.ev_type));
            }
            ei = ei + 1;
        }
        proof {
            assert(cur.take((before.len() + g@.len()) as int) =~= cur);
        }
        gi = gi + 1;
    }
    proof {
        assert(gs.take(glyphs@.len() as int) =~= gs);
    }
    out.push(Ev::new(time, END_GLYPH));
    out
}

/// The summed durations of `gs`.
pub open spec fn total_duration(gs: Seq<Seq<Ev>>) -> int
    decreases gs.len(),
{
    if gs.len() == 0 {
        0
    } else {
        total_duration(gs.drop_last()) + duration(gs.last())
    }
}

/// A run of triggers with no sentinel leaves the clock at 0 and is not moved.
proof fn lemma_no_sentinel(s: Seq<Ev>)
    requires
        forall|i: int| 0 <= i < s.len() ==> #[trigger] s[i].ev_type != END_GLYPH,
    ensures
        clock_after(s) == 0,
        shifted_triggers(s) == s,
    decreases s.len(),
{
    if s.len() > 0 {
        lemma_no_sentinel(s.drop_last());
        assert(shifted_triggers(s) =~= s);
    }
}

proof fn lemma_clock_concat(a: Seq<Ev>, b: Seq<Ev>)
    ensures
        clock_after(a + b) == clock_after(a) + clock_after(b),
    decreases b.len(),
{
    if b.len() == 0 {
        assert(a + b =~= a);
    } else {
        assert((a + b).drop_last() =~= a + b.drop_last());
        lemma_clock_concat(a, b.drop_last());
    }
}

/// The clock after a well-formed glyph is its duration.
proof fn lemma_glyph_clock(g: Seq<Ev>)
    requires
        is_glyph(g),
    ensures
        clock_after(g) == duration(g),
{
    lemma_no_sentinel(g.drop_last());
}

proof fn lemma_fits_append_glyph(a: Seq<Ev>, g: Seq<Ev>, k: int)
    requires
        stitch_fits(a),
        is_glyph(g),
        clock_after(a) + duration(g) <= u16::MAX,
        0 <= k <= g.len(),
    ensures
        stitch_fits(a + g.take(k)),
    decreases k,
{
    if k == 0 {
        assert(a + g.take(0) =~= a);
    } else {
        let prev = a + g.take(k - 1);
        assert((a + g.take(k)).drop_last() =~= prev);
        lemma_fits_append_glyph(a, g, k - 1);
        lemma_clock_concat(a, g.take(k - 1));
        lemma_no_sentinel(g.take(k - 1));
        if k == g.len() {
            assert(g.take(k) =~= g);
            lemma_clock_concat(a, g);
            lemma_glyph_clock(g);
        } else {
            assert(g[k - 1].ms_time <= g[g.len() - 1].ms_time);
        }
    }
}

/// Stitching well-formed glyphs whose durations sum to at most `u16::MAX`
/// meets the timestamp-width precondition, and the result lasts that sum.
pub proof fn lemma_stitch_glyphs_fit(gs: Seq<Seq<Ev>>)
    requires
        forall|i: int| 0 <= i < gs.len() ==> is_glyph(#[trigger] gs[i]),
        total_duration(gs) <= u16::MAX,
    ensures
        stitch_fits(joined(gs)),
        clock_after(joined(gs)) == total_duration(gs),
        duration(stitched(gs)) == total_duration(gs),
    decreases gs.len(),
{
    if gs.len() > 0 {
        let init = gs.drop_last();
        let g = gs.last();
        assert(is_glyph(gs[gs.len() - 1]));
        assert forall|i: int| 0 <= i < init.len() implies is_glyph(#[trigger] init[i]) by {
            assert(init[i] == gs[i]);
        }
        lemma_stitch_glyphs_fit(init);
        lemma_fits_append_glyph(joined(init), g, g.len() as int);
        assert(g.take(g.len() as int) =~= g);
        lemma_clock_concat(joined(init), g);
        lemma_glyph_clock(g);
    }
}

/// Stitching two well-formed glyphs, whose durations sum to at most
/// `u16::MAX`, gives a glyph that lasts as long as the two together.
pub proof fn lemma_stitch_pair_duration(a: Seq<Ev>, b: Seq<Ev>)
    requires
        is_glyph(a),
        is_glyph(b),
        duration(a) + duration(b) <= u16::MAX,
    ensures
        stitch_fits(joined(seq![a, b])),
        duration(stitched(seq![a, b])) == duration(a) + duration(b),
{
    let gs = seq![a, b];
    let one = seq![a];
    assert(gs.drop_last() =~= one);
    assert(one.drop_last() =~= Seq::<Seq<Ev>>::empty());
    assert(total_duration(one) == duration(a)) by {
        assert(one.last() == a);
        reveal_with_fuel(total_duration, 2);
    }
    assert(total_duration(gs) == duration(a) + duration(b)) by {
        assert(gs.last() == b);
    }
    lemma_stitch_glyphs_fit(gs);
}

/// `evs` moved later by `d` milliseconds.
pub open spec fn delayed(evs: Seq<Ev>, d: int) -> Seq<Ev> {
    evs.map_values(|e: Ev| Ev { ms_time: (e.ms_time + d) as u16, ev_type: e.ev_type })
}

/// Replaying the triggers of a glyph after `x` moves them later by the
/// clock after `x`, and leaves that clock as it is.
proof fn lemma_shifted_then_glyph(x: Seq<Ev>, b: Seq<Ev>, k: int)
    requires
        is_glyph(b),
        0 <= k < b.len(),
    ensures
        shifted_triggers(x + b.take(k)) == shifted_triggers(x) + delayed(b.take(k), clock_after(x)),
        clock_after(x + b.take(k)) == clock_after(x),
    decreases k,
{
    if k == 0 {
        assert(x + b.take(0) =~= x);
        assert(shifted_triggers(x) + delayed(b.take(0), clock_after(x)) =~= shifted_triggers(x));
    } else {
        lemma_shifted_then_glyph(x, b, k - 1);
        assert((x + b.take(k)).drop_last() =~= x + b.take(k - 1));
        assert((x + b.take(k)).last() == b[k - 1]);
        assert(b[k - 1].ev_type < MOTOR_COUNT);
        assert(shifted_triggers(x) + delayed(b.take(k), clock_after(x)) =~= (shifted_triggers(x)
            + delayed(b.take(k - 1), clock_after(x))).push(
            Ev { ms_time: (b[k - 1].ms_time + clock_after(x)) as u16, ev_type: b[k - 1].ev_type },
        ));
    }
}

/// Replaying a whole glyph after `x`: its triggers are moved later by the
/// clock after `x`, and the clock advances by its duration.
proof fn lemma_shifted_append_glyph(x: Seq<Ev>, b: Seq<Ev>)
    requires
        is_glyph(b),
    ensures
        shifted_triggers(x + b) == shifted_triggers(x) + delayed(b.drop_last(), clock_after(x)),
        clock_after(x + b) == clock_after(x) + duration(b),
{
    let n = b.len() - 1;
    lemma_shifted_then_glyph(x, b, n);
    assert((x + b).drop_last() =~= x + b.take(n));
    assert(b.take(n) =~= b.drop_last());
    lemma_glyph_clock(b);
    lemma_clock_concat(x, b);
}

/// The triggers of stitched well-formed glyphs are motors, in time order,
/// and none comes after the summed durations.
proof fn lemma_shifted_joined_glyphs(gs: Seq<Seq<Ev>>)
    requires
        forall|i: int| 0 <= i < gs.len() ==> is_glyph(#[trigger] gs[i]),
        total_duration(gs) <= u16::MAX,
    ensures
        forall|i: int|
            0 <= i < shifted_triggers(joined(gs)).len() ==> (#[trigger] shifted_triggers(
                joined(gs),
            )[i]).ev_type < MOTOR_COUNT && shifted_triggers(joined(gs))[i].ms_time <= total_duration(gs),
        forall|i: int, j: int|
            0 <= i <= j < shifted_triggers(joined(gs)).len() ==> #[trigger] shifted_triggers(
                joined(gs),
            )[i].ms_time <= #[trigger] shifted_triggers(joined(gs))[j].ms_time,
    decreases gs.len(),
{
    if gs.len() > 0 {
        let init = gs.drop_last();
        let g = gs.last();
        assert(is_glyph(gs[gs.len() - 1]));
        assert forall|i: int| 0 <= i < init.len() implies is_glyph(#[trigger] init[i]) by {
            assert(init[i] == gs[i]);
        }
        lemma_stitch_glyphs_fit(init);
        lemma_shifted_joined_glyphs(init);
        lemma_shifted_append_glyph(joined(init), g);
        let left = shifted_triggers(joined(init));
        let off = total_duration(init);
        let right = delayed(g.drop_last(), off);
        let t = shifted_triggers(joined(gs));
        assert(t == left + right);
        assert forall|i: int| 0 <= i < right.len() implies (#[trigger] right[i]).ms_time == g[i].ms_time
            + off && right[i].ev_type == g[i].ev_type && g[i].ev_type < MOTOR_COUNT && g[i].ms_time
            <= duration(g) by {
            assert(g[i].ms_time <= g[g.len() - 1].ms_time);
        }
        assert forall|i: int| 0 <= i < t.len() implies (#[trigger] t[i]).ev_type < MOTOR_COUNT
            && t[i].ms_time <= total_duration(gs) by {
            if i >= left.len() {
                assert(t[i] == right[i - left.len()]);
            }
        }
        assert forall|i: int, j: int| 0 <= i <= j < t.len() implies #[trigger] t[i].ms_time
            <= #[trigger] t[j].ms_time by {
            if j < left.len() {
                assert(t[i] == left[i] && t[j] == left[j]);
                assert(left[i].ms_time <= left[j].ms_time);
            } else if i < left.len() {
                assert(t[i] == left[i]);
                assert(left[i].ms_time <= off);
                assert(t[j] == right[j - left.len()]);
                assert(right[j - left.len()].ms_time >= off);
            } else {
                assert(t[i] == right[i - left.len()]);
                assert(t[j] == right[j - left.len()]);
                assert(g[i - left.len()].ms_time <= g[j - left.len()].ms_time);
            }
        }
    }
}

/// Stitching well-formed glyphs whose durations sum to at most `u16::MAX`
/// gives a well-formed glyph.
pub proof fn lemma_stitched_is_glyph(gs: Seq<Seq<Ev>>)
    requires
        forall|i: int| 0 <= i < gs.len() ==> is_glyph(#[trigger] gs[i]),
        total_duration(gs) <= u16::MAX,
    ensures
        is_glyph(stitched(gs)),
        duration(stitched(gs)) == total_duration(gs),
{
    lemma_stitch_glyphs_fit(gs);
    lemma_shifted_joined_glyphs(gs);
    let t = shifted_triggers(joined(gs));
    let r = stitched(gs);
    assert forall|i: int| 0 <= i < r.len() - 1 implies #[trigger] r[i].ev_type < MOTOR_COUNT by {
        assert(r[i] == t[i]);
    }
    assert forall|i: int, j: int| 0 <= i <= j < r.len() implies #[trigger] r[i].ms_time
        <= #[trigger] r[j].ms_time by {
        if j < t.len() {
            assert(r[i] == t[i] && r[j] == t[j]);
            assert(t[i].ms_time <= t[j].ms_time);
        } else if i < t.len() {
            assert(r[i] == t[i]);
            assert(t[i].ms_time <= total_duration(gs));
            assert(r[j].ms_time == total_duration(gs));
        }
    }
}

/// Stitching two well-formed glyphs plays the triggers of the first as
/// they are, then those of the second moved later by the first's duration,
/// then one sentinel at the summed durations: the same motor sequence, with
/// the same gaps, as the first played to its end and the second right after.
pub proof fn lemma_stitch_pair_plays_in_turn(a: Seq<Ev>, b: Seq<Ev>)
    requires
        is_glyph(a),
        is_glyph(b),
        duration(a) + duration(b) <= u16::MAX,
    ensures
        stitched(seq![a, b]) == (a.drop_last() + delayed(b.drop_last(), duration(a))).push(
            Ev { ms_time: (duration(a) + duration(b)) as u16, ev_type: END_GLYPH },
        ),
{
    let gs = seq![a, b];
    assert(gs.drop_last() =~= seq![a]);
    assert(seq![a].drop_last() =~= Seq::<Seq<Ev>>::empty());
    assert(joined(seq![a]) =~= a) by {
        reveal_with_fuel(joined, 2);
    }
    assert(joined(gs) == a + b);
    lemma_shifted_append_glyph(a, b);
    lemma_glyph_clock(a);
    lemma_no_sentinel(a.drop_last());
}

/// Stitching a single well-formed glyph gives that glyph back.
pub proof fn lemma_stitch_single(a: Seq<Ev>)
    requires
        is_glyph(a),
    ensures
        stitch_fits(joined(seq![a])),
        stitched(seq![a]) == a,
{
    let gs = seq![a];
    assert(gs.drop_last() =~= Seq::<Seq<Ev>>::empty());
    assert(gs.last() == a);
    assert(joined(gs) =~= a) by {
        reveal_with_fuel(joined, 2);
    }
    assert(total_duration(gs) == duration(a)) by {
        reveal_with_fuel(total_duration, 2);
    }
    lemma_stitch_glyphs_fit(gs);
    lemma_no_sentinel(a.drop_last());
    lemma_glyph_clock(a);
    assert(stitched(gs) =~= a);
}

} // verus!
