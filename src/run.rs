//! Press and release balance of the whole pipeline over a run of key
//! events and timer expiries.
use vstd::prelude::*;
use crate::balance::{balance, held_after, hold_sum, lemma_append_step, lemma_balance_concat, lemma_balance_single, lemma_hold_sum_nonneg, lemma_occurrences_nonneg, lemma_overlaps_step_balance, lemma_press_all, lemma_writes_of_one, lemma_writes_of_two, never_below_zero, occurrences, overlap_state_ok, presses_then_releases};
use crate::config::{layered_target, remap_of, seq_or_empty, trigger_layer, Features, KeyboardView};
use crate::features::layers::layers_step;
use crate::features::overlaps::{is_overlap_key, overlaps_step, OverlapsView};
use crate::features::terms::{is_term_key, settle_term, term_of, timer_step, TermEntry};
use crate::features::{directives_writes, press_all, release_all, verdict_writes, Directive, KeyEvent, KeyWrite, Verdict};
use crate::io::physical_writes;
use crate::keys::{is_key_state, KeyCode, PRESS};
use crate::layouts::{lemma_layout_round_trip, Layout};
use crate::pipeline::{pipeline_step, PipelineView};
use crate::table::{key_index, keys_of, keys_unique, lemma_put_unique, lemma_remove_unique, lemma_unique_index};

verus! {

/// What reaches the worker: a key event, or the expiry of a timer.
pub enum Input {
    Key(KeyEvent),
    Timer(KeyCode),
}

/// An input and the time, in milliseconds, at which it is handled.
pub struct Stamped {
    pub input: Input,
    pub now: u64,
}

/// The keys held after `ins`, from a state with no key held.
pub open spec fn input_held(ins: Seq<Stamped>) -> Set<KeyCode>
    decreases ins.len(),
{
    if ins.len() == 0 {
        Set::empty()
    } else {
        let h = input_held(ins.drop_last());
        match ins.last().input {
            Input::Key(ev) => held_after(h, ev),
            Input::Timer(_) => h,
        }
    }
}

/// Inputs as a keyboard and its timers deliver them: each key event
/// presses or releases, a key is pressed only when up and released only
/// when down.
pub open spec fn inputs_well_formed(ins: Seq<Stamped>) -> bool
    decreases ins.len(),
{
    if ins.len() == 0 {
        true
    } else {
        &&& inputs_well_formed(ins.drop_last())
        &&& match ins.last().input {
            Input::Key(ev) => is_key_state(ev.state) && (ev.state == PRESS <==> !input_held(
                ins.drop_last(),
            ).contains(ev.key)),
            Input::Timer(_) => true,
        }
    }
}

pub struct RunState {
    pub pipeline: PipelineView,
    pub keys_down: Set<KeyCode>,
    pub active: Seq<bool>,
}

/// A timer expiry through the pipeline: the new state and the writes.
pub open spec fn timer_writes(p: PipelineView, keys_down: Set<KeyCode>, now: u64, k: KeyCode) -> (
    PipelineView,
    Seq<KeyWrite>,
) {
    if p.enabled.terms {
        let (st, out) = timer_step(p.terms, keys_down, now, k);
        (
            PipelineView { overlaps: p.overlaps, terms: st, enabled: p.enabled },
            match out {
                Some(ds) => directives_writes(ds),
                None => Seq::empty(),
            },
        )
    } else {
        (p, Seq::empty())
    }
}

/// The pipeline over a run of inputs: the state after them, and every
/// write, in logical codes, in order.
pub open spec fn pipeline_run(
    s0: RunState,
    cfg: KeyboardView,
    global_term: u16,
    ins: Seq<Stamped>,
) -> (RunState, Seq<KeyWrite>)
    decreases ins.len(),
{
    if ins.len() == 0 {
        (s0, Seq::empty())
    } else {
        let (s1, out1) = pipeline_run(s0, cfg, global_term, ins.drop_last());
        let now = ins.last().now;
        match ins.last().input {
            Input::Key(ev) => {
                let (p, kd, act, v) = pipeline_step(
                    s1.pipeline,
                    cfg,
                    s1.keys_down,
                    s1.active,
                    global_term,
                    now,
                    ev,
                );
                (RunState { pipeline: p, keys_down: kd, active: act }, out1 + verdict_writes(v))
            },
            Input::Timer(k) => {
                let (p, w) = timer_writes(s1.pipeline, s1.keys_down, now, k);
                (RunState { pipeline: p, keys_down: s1.keys_down, active: s1.active }, out1 + w)
            },
        }
    }
}

/// Whether the overlap feature hands `ev` on to the layers.
pub open spec fn overlaps_pass(p: PipelineView, cfg: KeyboardView, ev: KeyEvent) -> bool {
    !p.enabled.overlaps || overlaps_step(p.overlaps, cfg, ev).1 is Continue
}

/// A layer switch by `ev` changes the meaning of no held key that reaches
/// the layers: each keeps the target it had, or keeps having none.
pub open spec fn switch_keeps_meanings(s: RunState, cfg: KeyboardView, held: Set<KeyCode>, ev: KeyEvent) -> bool {
    let en = s.pipeline.enabled;
    is_layer_trigger(cfg, en, ev.key) && overlaps_pass(s.pipeline, cfg, ev) ==> forall|x: KeyCode|
        #[trigger] reaches(s.pipeline.overlaps, held, x) && !is_layer_trigger(cfg, en, x) ==> layer_route(
            cfg,
            en,
            s.active,
            x,
        ) == layer_route(cfg, en, layers_step(cfg, s.keys_down, s.active, ev).1, x)
}

/// Every layer switch over the run keeps the meanings of the keys held.
pub open spec fn inputs_layer_stable(s0: RunState, cfg: KeyboardView, gt: u16, ins: Seq<Stamped>) -> bool
    decreases ins.len(),
{
    if ins.len() == 0 {
        true
    } else {
        &&& inputs_layer_stable(s0, cfg, gt, ins.drop_last())
        &&& match ins.last().input {
            Input::Key(ev) => switch_keeps_meanings(
                pipeline_run(s0, cfg, gt, ins.drop_last()).0,
                cfg,
                input_held(ins.drop_last()),
                ev,
            ),
            Input::Timer(_) => true,
        }
    }
}

/// The sum of `g` over `0..n`.
pub open spec fn range_sum(n: nat, g: spec_fn(int) -> int) -> int
    decreases n,
{
    if n == 0 {
        0
    } else {
        range_sum((n - 1) as nat, g) + g(n - 1)
    }
}

proof fn lemma_range_sum_point(n: nat, g1: spec_fn(int) -> int, g2: spec_fn(int) -> int, k: int)
    requires
        forall|x: int| 0 <= x < n && x != k ==> #[trigger] g1(x) == g2(x),
    ensures
        range_sum(n, g2) - range_sum(n, g1) == if 0 <= k < n {
            g2(k) - g1(k)
        } else {
            0
        },
    decreases n,
{
    if n > 0 {
        lemma_range_sum_point((n - 1) as nat, g1, g2, k);
    }
}

proof fn lemma_range_sum_zero(n: nat, g: spec_fn(int) -> int)
    requires
        forall|x: int| 0 <= x < n ==> #[trigger] g(x) == 0,
    ensures
        range_sum(n, g) == 0,
    decreases n,
{
    if n > 0 {
        lemma_range_sum_zero((n - 1) as nat, g);
    }
}

proof fn lemma_range_sum_nonneg(n: nat, g: spec_fn(int) -> int)
    requires
        forall|x: int| 0 <= x < n ==> #[trigger] g(x) >= 0,
    ensures
        range_sum(n, g) >= 0,
    decreases n,
{
    if n > 0 {
        lemma_range_sum_nonneg((n - 1) as nat, g);
    }
}

/// Key `x` is held and reaches the features after overlaps: no overlap
/// entry holds it back and its press did not go out already.
pub open spec fn reaches(o: OverlapsView, held: Set<KeyCode>, x: KeyCode) -> bool {
    &&& held.contains(x)
    &&& !keys_of(o.active).contains(x)
    &&& !o.swallowed.contains(x)
}

/// Whether `x` is a trigger key that the enabled layer feature consumes.
pub open spec fn is_layer_trigger(cfg: KeyboardView, enabled: Features, x: KeyCode) -> bool {
    enabled.layers && trigger_layer(cfg, x) is Some
}

/// The target that the enabled layer feature gives `x` under `act`.
pub open spec fn layer_route(cfg: KeyboardView, enabled: Features, act: Seq<bool>, x: KeyCode) -> Option<
    Seq<KeyCode>,
> {
    if enabled.layers {
        layered_target(cfg, act, x)
    } else {
        None
    }
}

/// Whether `x` reaches the term feature: no layer consumes or maps it.
pub open spec fn reaches_terms(cfg: KeyboardView, enabled: Features, act: Seq<bool>, x: KeyCode) -> bool {
    !is_layer_trigger(cfg, enabled, x) && layer_route(cfg, enabled, act, x) is None
}

/// Whether `x` is a term key with a hold, handled by an enabled term
/// feature that it reaches.
pub open spec fn term_held_back(cfg: KeyboardView, enabled: Features, act: Seq<bool>, x: KeyCode) -> bool {
    &&& reaches_terms(cfg, enabled, act, x)
    &&& enabled.terms
    &&& is_term_key(cfg, x)
    &&& remap_of(cfg, x).unwrap().hold is Some
}

/// How often a key `x` that reaches past overlaps keeps `c` down by itself:
/// a layer trigger nothing, a key that a layer maps its target, a tap-only
/// key its tap, a term key with a hold nothing (its entry counts), any
/// other key itself.
pub open spec fn passed_weight(
    cfg: KeyboardView,
    enabled: Features,
    act: Seq<bool>,
    x: KeyCode,
    c: KeyCode,
) -> int {
    if is_layer_trigger(cfg, enabled, x) {
        0
    } else if layer_route(cfg, enabled, act, x) is Some {
        occurrences(layer_route(cfg, enabled, act, x).unwrap(), c)
    } else if enabled.terms && is_term_key(cfg, x) {
        if remap_of(cfg, x).unwrap().hold is None {
            occurrences(remap_of(cfg, x).unwrap().tap.unwrap(), c)
        } else {
            0
        }
    } else if x == c {
        1
    } else {
        0
    }
}

/// For each key code, how often the key keeps `c` down by itself.
pub open spec fn weights(
    cfg: KeyboardView,
    p: PipelineView,
    act: Seq<bool>,
    held: Set<KeyCode>,
    c: KeyCode,
) -> spec_fn(int) -> int {
    |x: int|
        if 0 <= x < 0x10000 && reaches(p.overlaps, held, x as KeyCode) {
            passed_weight(cfg, p.enabled, act, x as KeyCode, c)
        } else {
            0
        }
}

/// What a held term entry keeps down: its hold, once it went out.
pub open spec fn term_contribution(e: TermEntry, c: KeyCode) -> int {
    if e.hold_emitted {
        occurrences(e.hold, c)
    } else {
        0
    }
}

/// How often `c` is down through the holds of term entries.
pub open spec fn term_sum(m: Seq<(KeyCode, TermEntry)>, c: KeyCode) -> int
    decreases m.len(),
{
    if m.len() == 0 {
        0
    } else {
        term_sum(m.drop_last(), c) + term_contribution(m.last().1, c)
    }
}

proof fn lemma_term_sum_remove(m: Seq<(KeyCode, TermEntry)>, i: int, c: KeyCode)
    requires
        0 <= i < m.len(),
    ensures
        term_sum(m.remove(i), c) == term_sum(m, c) - term_contribution(m[i].1, c),
    decreases m.len(),
{
    if i == m.len() - 1 {
        assert(m.remove(i) =~= m.drop_last());
    } else {
        assert(m.remove(i).drop_last() =~= m.drop_last().remove(i));
        assert(m.remove(i).last() == m.last());
        lemma_term_sum_remove(m.drop_last(), i, c);
    }
}

proof fn lemma_term_sum_update(m: Seq<(KeyCode, TermEntry)>, i: int, x: (KeyCode, TermEntry), c: KeyCode)
    requires
        0 <= i < m.len(),
    ensures
        term_sum(m.update(i, x), c) == term_sum(m, c) - term_contribution(m[i].1, c)
            + term_contribution(x.1, c),
    decreases m.len(),
{
    if i == m.len() - 1 {
        assert(m.update(i, x).drop_last() =~= m.drop_last());
    } else {
        assert(m.update(i, x).drop_last() =~= m.drop_last().update(i, x));
        lemma_term_sum_update(m.drop_last(), i, x, c);
    }
}

proof fn lemma_term_sum_nonneg(m: Seq<(KeyCode, TermEntry)>, c: KeyCode)
    ensures
        term_sum(m, c) >= 0,
    decreases m.len(),
{
    if m.len() > 0 {
        lemma_term_sum_nonneg(m.drop_last(), c);
        lemma_occurrences_nonneg(m.last().1.hold, c);
    }
}

/// How often `c` should be down on the synthetic device.
pub open spec fn pipe_outstanding(
    p: PipelineView,
    act: Seq<bool>,
    cfg: KeyboardView,
    held: Set<KeyCode>,
    c: KeyCode,
) -> int {
    hold_sum(p.overlaps.active, c) + (if p.overlaps.swallowed.contains(c) {
        1int
    } else {
        0int
    }) + range_sum(0x10000, weights(cfg, p, act, held, c)) + term_sum(p.terms.active, c)
}

/// How the pipeline's state relates to the keys held.
pub open spec fn pipe_ok(p: PipelineView, act: Seq<bool>, cfg: KeyboardView, held: Set<KeyCode>) -> bool {
    &&& overlap_state_ok(p.overlaps, cfg, held)
    &&& !p.enabled.overlaps ==> p.overlaps.active.len() == 0 && p.overlaps.swallowed
        == Set::<KeyCode>::empty()
    &&& keys_unique(p.terms.active)
    &&& forall|i: int|
        0 <= i < p.terms.active.len() ==> reaches(p.overlaps, held, #[trigger] p.terms.active[i].0)
            && term_held_back(cfg, p.enabled, act, p.terms.active[i].0)
    &&& forall|x: KeyCode|
        #[trigger] reaches(p.overlaps, held, x) && term_held_back(cfg, p.enabled, act, x)
            ==> keys_of(p.terms.active).contains(x)
}

proof fn lemma_weights_off(
    cfg: KeyboardView,
    p: PipelineView,
    act: Seq<bool>,
    held: Set<KeyCode>,
    p2: PipelineView,
    act2: Seq<bool>,
    held2: Set<KeyCode>,
    k: int,
    c: KeyCode,
)
    requires
        forall|x: KeyCode|
            x != k ==> #[trigger] reaches(p.overlaps, held, x) == reaches(p2.overlaps, held2, x)
                && (reaches(p.overlaps, held, x) ==> passed_weight(cfg, p.enabled, act, x, c)
                == passed_weight(cfg, p2.enabled, act2, x, c)),
    ensures
        range_sum(0x10000, weights(cfg, p2, act2, held2, c)) - range_sum(
            0x10000,
            weights(cfg, p, act, held, c),
        ) == if 0 <= k < 0x10000 {
            weights(cfg, p2, act2, held2, c)(k) - weights(cfg, p, act, held, c)(k)
        } else {
            0
        },
{
    let g1 = weights(cfg, p, act, held, c);
    let g2 = weights(cfg, p2, act2, held2, c);
    assert forall|x: int| 0 <= x < 0x10000 && x != k implies #[trigger] g1(x) == g2(x) by {
        assert((x as KeyCode) as int == x);
        assert(reaches(p.overlaps, held, x as KeyCode) == reaches(p2.overlaps, held2, x as KeyCode));
    }
    lemma_range_sum_point(0x10000, g1, g2, k);
}

proof fn lemma_outstanding_nonneg(
    p: PipelineView,
    act: Seq<bool>,
    cfg: KeyboardView,
    held: Set<KeyCode>,
    c: KeyCode,
)
    ensures
        pipe_outstanding(p, act, cfg, held, c) >= 0,
{
    lemma_hold_sum_nonneg(p.overlaps.active, c);
    lemma_term_sum_nonneg(p.terms.active, c);
    let g = weights(cfg, p, act, held, c);
    assert forall|x: int| 0 <= x < 0x10000 implies #[trigger] g(x) >= 0 by {
        let y = x as KeyCode;
        if remap_of(cfg, y) is Some && remap_of(cfg, y).unwrap().tap is Some {
            lemma_occurrences_nonneg(remap_of(cfg, y).unwrap().tap.unwrap(), c);
        }
        if layer_route(cfg, p.enabled, act, y) is Some {
            lemma_occurrences_nonneg(layer_route(cfg, p.enabled, act, y).unwrap(), c);
        }
    }
    lemma_range_sum_nonneg(0x10000, g);
}

/// A key event through the pipeline keeps its state related to the keys
/// held, writes presses before releases, and changes how often each key
/// is down on the synthetic device by exactly what it writes.
pub proof fn lemma_pipeline_key_step(
    p: PipelineView,
    cfg: KeyboardView,
    kd: Set<KeyCode>,
    act: Seq<bool>,
    gt: u16,
    now: u64,
    held: Set<KeyCode>,
    ev: KeyEvent,
) -> (n: int)
    requires
        pipe_ok(p, act, cfg, held),
        is_key_state(ev.state),
        ev.state == PRESS <==> !held.contains(ev.key),
        switch_keeps_meanings(RunState { pipeline: p, keys_down: kd, active: act }, cfg, held, ev),
    ensures
        ({
            let (p2, kd2, act2, v) = pipeline_step(p, cfg, kd, act, gt, now, ev);
            &&& pipe_ok(p2, act2, cfg, held_after(held, ev))
            &&& p2.enabled == p.enabled
            &&& presses_then_releases(verdict_writes(v), n)
            &&& forall|c: KeyCode|
                pipe_outstanding(p, act, cfg, held, c) + balance(verdict_writes(v), c)
                    == #[trigger] pipe_outstanding(p2, act2, cfg, held_after(held, ev), c)
        }),
{
    let k = ev.key;
    let held2 = held_after(held, ev);
    let o = p.overlaps;
    let t = p.terms;
    let en = p.enabled;
    lemma_unique_index(o.active, k);
    lemma_unique_index(t.active, k);
    let (ov, v1) = if en.overlaps {
        overlaps_step(o, cfg, ev)
    } else {
        (o, Verdict::Continue(ev))
    };
    let (p2, kd2, act2, v) = pipeline_step(p, cfg, kd, act, gt, now, ev);
    let w = verdict_writes(v);
    if en.overlaps && !(v1 is Continue) {
        let n = lemma_overlaps_step_balance(o, cfg, held, ev);
        assert(p2 == PipelineView { overlaps: ov, terms: t, enabled: en });
        assert(v == v1);
        assert(act2 == act);
        assert(!reaches(o, held, k)) by {
            if reaches(o, held, k) {
                assert(ev.state != PRESS);
                if is_overlap_key(cfg, k) {
                    assert(key_index(o.active, k) is None);
                }
            }
        }
        assert(!reaches(ov, held2, k)) by {
            if ev.state == PRESS {
                if is_overlap_key(cfg, k) {
                    let r = remap_of(cfg, k).unwrap();
                    let e = crate::features::overlaps::OverlapEntry {
                        tap: seq_or_empty(r.tap),
                        hold: seq_or_empty(r.hold),
                        triggered: false,
                    };
                    lemma_put_unique(o.active, k, e);
                }
            }
        }
        assert forall|x: KeyCode| x != k implies #[trigger] reaches(o, held, x) == reaches(ov, held2, x) by {}
        assert forall|c: KeyCode|
            pipe_outstanding(p, act, cfg, held, c) + balance(w, c) == #[trigger] pipe_outstanding(
                p2,
                act2,
                cfg,
                held2,
                c,
            ) by {
            lemma_weights_off(cfg, p, act, held, p2, act2, held2, k as int, c);
            assert(crate::balance::outstanding(o, held, c) + balance(w, c)
                == crate::balance::outstanding(ov, held2, c));
            if c != k {
                assert(reaches(o, held, c) == reaches(ov, held2, c));
            }
        }
        assert forall|i: int| 0 <= i < t.active.len() implies reaches(ov, held2, #[trigger] t.active[i].0)
            && term_held_back(cfg, en, act2, t.active[i].0) by {
            assert(reaches(o, held, t.active[i].0));
        }
        assert forall|x: KeyCode| #[trigger] reaches(ov, held2, x) && term_held_back(cfg, en, act2, x)
            implies keys_of(t.active).contains(x) by {
            assert(reaches(o, held, x));
        }
        return n;
    }
    assert(ov == o && v1 == Verdict::Continue(ev)) by {
        if en.overlaps {
            if o.swallowed.contains(k) {
            } else if is_overlap_key(cfg, k) {
            }
        }
    }
    assert(!o.swallowed.contains(k)) by {
        if en.overlaps && o.swallowed.contains(k) {
            assert(!(v1 is Continue));
        }
    }
    assert(!keys_of(o.active).contains(k)) by {
        if keys_of(o.active).contains(k) {
            let j = choose|j: int| 0 <= j < o.active.len() && o.active[j].0 == k;
            assert(held.contains(o.active[j].0) && is_overlap_key(cfg, o.active[j].0));
            assert(key_index(o.active, k) == Some(j));
        }
    }
    // Overlaps passed the event on unchanged.
    assert(forall|x: KeyCode| x != k ==> #[trigger] reaches(o, held, x) == reaches(o, held2, x));
    assert(overlap_state_ok(o, cfg, held2)) by {
        assert forall|i: int| 0 <= i < o.active.len() implies held2.contains(#[trigger] o.active[i].0)
            && is_overlap_key(cfg, o.active[i].0) by {
            crate::balance::lemma_keys_of_index(o.active, i);
        }
    }
    if is_layer_trigger(cfg, en, k) {
        // A trigger switches its layer; no held key that reaches the
        // layers changes meaning.
        assert(overlaps_pass(p, cfg, ev));
        assert(p2 == PipelineView { overlaps: o, terms: t, enabled: en });
        assert(w.len() == 0);
        assert(act2 == layers_step(cfg, kd, act, ev).1);
        assert forall|c: KeyCode|
            pipe_outstanding(p, act, cfg, held, c) + balance(w, c) == #[trigger] pipe_outstanding(
                p2,
                act2,
                cfg,
                held2,
                c,
            ) by {
            assert forall|x: KeyCode| x != k implies #[trigger] reaches(o, held, x) == reaches(o, held2, x)
                && (reaches(o, held, x) ==> passed_weight(cfg, en, act, x, c) == passed_weight(
                cfg,
                en,
                act2,
                x,
                c,
            )) by {
                if reaches(o, held, x) && !is_layer_trigger(cfg, en, x) {
                    assert(layer_route(cfg, en, act, x) == layer_route(cfg, en, act2, x));
                }
            }
            lemma_weights_off(cfg, p, act, held, p2, act2, held2, k as int, c);
        }
        assert forall|i: int| 0 <= i < t.active.len() implies reaches(o, held2, #[trigger] t.active[i].0)
            && term_held_back(cfg, en, act2, t.active[i].0) by {
            let x = t.active[i].0;
            assert(reaches(o, held, x) && term_held_back(cfg, en, act, x));
            assert(layer_route(cfg, en, act, x) == layer_route(cfg, en, act2, x));
        }
        assert forall|x: KeyCode| #[trigger] reaches(o, held2, x) && term_held_back(cfg, en, act2, x)
            implies keys_of(t.active).contains(x) by {
            assert(x != k);
            assert(reaches(o, held, x));
            assert(layer_route(cfg, en, act, x) == layer_route(cfg, en, act2, x));
        }
        return 0;
    }
    if layer_route(cfg, en, act, k) is Some {
        let target = layer_route(cfg, en, act, k).unwrap();
        assert(p2 == PipelineView { overlaps: o, terms: t, enabled: en });
        assert(act2 == act);
        if ev.state == PRESS {
            lemma_writes_of_one(Directive::PressMany(target));
        } else {
            lemma_writes_of_one(Directive::ReleaseMany(target));
        }
        assert forall|c: KeyCode|
            pipe_outstanding(p, act, cfg, held, c) + balance(w, c) == #[trigger] pipe_outstanding(
                p2,
                act2,
                cfg,
                held2,
                c,
            ) by {
            lemma_weights_off(cfg, p, act, held, p2, act2, held2, k as int, c);
            lemma_press_all(target, c);
        }
        assert forall|i: int| 0 <= i < t.active.len() implies reaches(o, held2, #[trigger] t.active[i].0)
            && term_held_back(cfg, en, act2, t.active[i].0) by {
            assert(reaches(o, held, t.active[i].0));
        }
        assert forall|x: KeyCode| #[trigger] reaches(o, held2, x) && term_held_back(cfg, en, act2, x)
            implies keys_of(t.active).contains(x) by {
            assert(reaches(o, held, x));
        }
        return if ev.state == PRESS {
            w.len() as int
        } else {
            0
        };
    }
    // The layers passed the event on unchanged too.
    assert(layers_step(cfg, kd, act, ev).2 == Verdict::Continue(ev) || !en.layers);
    assert(act2 == act);
    let t_on = en.terms;
    let tk = is_term_key(cfg, k);
    if !(t_on && tk) {
        assert(v == Verdict::Continue(ev));
        assert(p2 == PipelineView { overlaps: o, terms: t, enabled: en });
        assert(w == seq![KeyWrite { code: k, value: ev.state }]);
        assert forall|c: KeyCode|
            pipe_outstanding(p, act, cfg, held, c) + balance(w, c) == #[trigger] pipe_outstanding(
                p2,
                act2,
                cfg,
                held2,
                c,
            ) by {
            lemma_weights_off(cfg, p, act, held, p2, act2, held2, k as int, c);
            lemma_balance_single(KeyWrite { code: k, value: ev.state }, c);
        }
        assert forall|i: int| 0 <= i < t.active.len() implies reaches(o, held2, #[trigger] t.active[i].0)
            && term_held_back(cfg, en, act2, t.active[i].0) by {
            assert(reaches(o, held, t.active[i].0));
        }
        assert forall|x: KeyCode| #[trigger] reaches(o, held2, x) && term_held_back(cfg, en, act2, x)
            implies keys_of(t.active).contains(x) by {
            assert(reaches(o, held, x));
        }
        return if ev.state == PRESS {
            1
        } else {
            0
        };
    }
    let r = remap_of(cfg, k).unwrap();
    if r.hold is None {
        let tap = r.tap.unwrap();
        assert(p2 == PipelineView { overlaps: o, terms: t, enabled: en });
        if tap.len() > 0 {
            if ev.state == PRESS {
                lemma_writes_of_one(Directive::PressMany(tap));
            } else {
                lemma_writes_of_one(Directive::ReleaseMany(tap));
            }
        }
        assert forall|c: KeyCode|
            pipe_outstanding(p, act, cfg, held, c) + balance(w, c) == #[trigger] pipe_outstanding(
                p2,
                act2,
                cfg,
                held2,
                c,
            ) by {
            lemma_weights_off(cfg, p, act, held, p2, act2, held2, k as int, c);
            lemma_press_all(tap, c);
        }
        assert forall|i: int| 0 <= i < t.active.len() implies reaches(o, held2, #[trigger] t.active[i].0)
            && term_held_back(cfg, en, act2, t.active[i].0) by {
            assert(reaches(o, held, t.active[i].0));
        }
        assert forall|x: KeyCode| #[trigger] reaches(o, held2, x) && term_held_back(cfg, en, act2, x)
            implies keys_of(t.active).contains(x) by {
            assert(reaches(o, held, x));
        }
        return if ev.state == PRESS {
            w.len() as int
        } else {
            0
        };
    }
    if ev.state == PRESS {
        let e = TermEntry {
            tap: seq_or_empty(r.tap),
            hold: r.hold.unwrap(),
            term: term_of(r, gt),
            press_time: now,
            hold_emitted: false,
        };
        assert(!keys_of(t.active).contains(k)) by {
            if keys_of(t.active).contains(k) {
                let j = choose|j: int| 0 <= j < t.active.len() && t.active[j].0 == k;
                assert(reaches(o, held, t.active[j].0));
            }
        }
        lemma_put_unique(t.active, k, e);
        let ta2 = p2.terms.active;
        assert(ta2 == t.active.push((k, e)));
        assert(ta2.drop_last() =~= t.active);
        assert(w.len() == 0);
        assert forall|c: KeyCode|
            pipe_outstanding(p, act, cfg, held, c) + balance(w, c) == #[trigger] pipe_outstanding(
                p2,
                act2,
                cfg,
                held2,
                c,
            ) by {
            lemma_weights_off(cfg, p, act, held, p2, act2, held2, k as int, c);
        }
        assert forall|i: int| 0 <= i < ta2.len() implies reaches(o, held2, #[trigger] ta2[i].0)
            && term_held_back(cfg, en, act2, ta2[i].0) by {
            if i < t.active.len() {
                assert(ta2[i] == t.active[i]);
                assert(reaches(o, held, t.active[i].0));
            }
        }
        assert forall|x: KeyCode| #[trigger] reaches(o, held2, x) && term_held_back(cfg, en, act2, x)
            implies keys_of(ta2).contains(x) by {
            if x != k {
                assert(reaches(o, held, x));
            }
        }
        return 0;
    }
    // The release of a term key with a hold: its entry settles.
    assert(reaches(o, held, k));
    assert(keys_of(t.active).contains(k));
    let i = key_index(t.active, k).unwrap();
    let e = t.active[i].1;
    assert(t.active[i].0 == k);
    lemma_remove_unique(t.active, i);
    let ta2 = p2.terms.active;
    assert(ta2 == t.active.remove(i));
    assert(v == settle_term(e));
    let n: int = if !e.hold_emitted && e.tap.len() > 0 {
        e.tap.len() as int
    } else {
        0
    };
    if e.hold_emitted {
        if e.hold.len() > 0 {
            lemma_writes_of_one(Directive::ReleaseMany(e.hold));
        }
    } else if e.tap.len() > 0 {
        lemma_writes_of_two(Directive::PressMany(e.tap), Directive::ReleaseMany(e.tap));
        assert(w =~= press_all(e.tap) + release_all(e.tap));
    }
    assert forall|c: KeyCode|
        pipe_outstanding(p, act, cfg, held, c) + balance(w, c) == #[trigger] pipe_outstanding(
            p2,
            act2,
            cfg,
            held2,
            c,
        ) by {
        lemma_weights_off(cfg, p, act, held, p2, act2, held2, k as int, c);
        lemma_term_sum_remove(t.active, i, c);
        lemma_press_all(e.hold, c);
        lemma_press_all(e.tap, c);
        if !e.hold_emitted && e.tap.len() > 0 {
            lemma_balance_concat(press_all(e.tap), release_all(e.tap), c);
        }
    }
    assert forall|j: int| 0 <= j < ta2.len() implies reaches(o, held2, #[trigger] ta2[j].0)
        && term_held_back(cfg, en, act2, ta2[j].0) by {
        let j2 = if j < i { j } else { j + 1 };
        assert(ta2[j] == t.active[j2]);
        assert(t.active[j2].0 != k);
        assert(reaches(o, held, t.active[j2].0));
    }
    assert forall|x: KeyCode| #[trigger] reaches(o, held2, x) && term_held_back(cfg, en, act2, x)
        implies keys_of(ta2).contains(x) by {
        assert(reaches(o, held, x));
    }
    n
}

/// A timer expiry through the pipeline keeps its state related to the
/// keys held, only presses, and changes how often each key is down by
/// exactly what it writes.
pub proof fn lemma_pipeline_timer_step(
    p: PipelineView,
    act: Seq<bool>,
    cfg: KeyboardView,
    kd: Set<KeyCode>,
    now: u64,
    k: KeyCode,
    held: Set<KeyCode>,
)
    requires
        pipe_ok(p, act, cfg, held),
    ensures
        ({
            let (p2, w) = timer_writes(p, kd, now, k);
            &&& pipe_ok(p2, act, cfg, held)
            &&& p2.enabled == p.enabled
            &&& presses_then_releases(w, w.len() as int)
            &&& forall|c: KeyCode|
                pipe_outstanding(p, act, cfg, held, c) + balance(w, c) == #[trigger] pipe_outstanding(
                    p2,
                    act,
                    cfg,
                    held,
                    c,
                )
        }),
{
    let (p2, w) = timer_writes(p, kd, now, k);
    let t = p.terms;
    if p.enabled.terms && key_index(t.active, k) is Some {
        let i = key_index(t.active, k).unwrap();
        let e = t.active[i].1;
        if crate::features::terms::hold_due(e, kd.contains(k), now) {
            let e2 = TermEntry {
                tap: e.tap,
                hold: e.hold,
                term: e.term,
                press_time: e.press_time,
                hold_emitted: true,
            };
            let ta2 = p2.terms.active;
            assert(ta2 == t.active.update(i, (k, e2)));
            assert(t.active[i].0 == k);
            lemma_writes_of_one(Directive::PressMany(e.hold));
            assert(w == press_all(e.hold));
            assert forall|c: KeyCode|
                pipe_outstanding(p, act, cfg, held, c) + balance(w, c) == #[trigger] pipe_outstanding(
                    p2,
                    act,
                    cfg,
                    held,
                    c,
                ) by {
                lemma_weights_off(cfg, p, act, held, p2, act, held, -1, c);
                lemma_term_sum_update(t.active, i, (k, e2), c);
                lemma_press_all(e.hold, c);
            }
            assert(keys_unique(ta2)) by {
                assert forall|a: int, b: int| 0 <= a < ta2.len() && 0 <= b < ta2.len() && a != b
                    implies ta2[a].0 != ta2[b].0 by {
                    assert(ta2[a].0 == t.active[a].0);
                    assert(ta2[b].0 == t.active[b].0);
                }
            }
            assert forall|j: int| 0 <= j < ta2.len() implies reaches(p.overlaps, held, #[trigger] ta2[j].0)
                && term_held_back(cfg, p.enabled, act, ta2[j].0) by {
                assert(ta2[j].0 == t.active[j].0);
            }
            assert forall|x: KeyCode| #[trigger] reaches(p.overlaps, held, x) && term_held_back(
                cfg,
                p.enabled,
                act,
                x,
            ) implies keys_of(ta2).contains(x) by {
                let j = choose|j: int| 0 <= j < t.active.len() && t.active[j].0 == x;
                assert(ta2[j].0 == x);
            }
            return;
        }
    }
    assert(p2 == p);
    assert(w.len() == 0);
}

/// The pipeline's state and writes over a run keep the relation to the
/// keys held, and no prefix of the writes releases a key more often than
/// it presses it.
proof fn lemma_pipeline_run_inv(s0: RunState, cfg: KeyboardView, gt: u16, ins: Seq<Stamped>)
    requires
        s0.pipeline.overlaps.active.len() == 0,
        s0.pipeline.overlaps.swallowed == Set::<KeyCode>::empty(),
        s0.pipeline.terms.active.len() == 0,
        inputs_well_formed(ins),
        inputs_layer_stable(s0, cfg, gt, ins),
    ensures
        ({
            let (s, out) = pipeline_run(s0, cfg, gt, ins);
            &&& pipe_ok(s.pipeline, s.active, cfg, input_held(ins))
            &&& s.pipeline.enabled == s0.pipeline.enabled
            &&& forall|c: KeyCode|
                #[trigger] balance(out, c) == pipe_outstanding(
                    s.pipeline,
                    s.active,
                    cfg,
                    input_held(ins),
                    c,
                )
            &&& forall|c: KeyCode| #[trigger] never_below_zero(out, c)
        }),
    decreases ins.len(),
{
    let (s, out) = pipeline_run(s0, cfg, gt, ins);
    if ins.len() == 0 {
        let p = s0.pipeline;
        assert forall|c: KeyCode| #[trigger] balance(out, c) == pipe_outstanding(
            p,
            s.active,
            cfg,
            input_held(ins),
            c,
        ) by {
            let g = weights(cfg, p, s.active, input_held(ins), c);
            assert forall|x: int| 0 <= x < 0x10000 implies #[trigger] g(x) == 0 by {}
            lemma_range_sum_zero(0x10000, g);
        }
        assert forall|c: KeyCode| #[trigger] never_below_zero(out, c) by {
            assert forall|j: int| 0 <= j <= out.len() implies balance(#[trigger] out.take(j), c) >= 0 by {
                assert(out.take(j).len() == 0);
            }
        }
    } else {
        let prev = ins.drop_last();
        lemma_pipeline_run_inv(s0, cfg, gt, prev);
        let (s1, out1) = pipeline_run(s0, cfg, gt, prev);
        let held1 = input_held(prev);
        let now = ins.last().now;
        match ins.last().input {
            Input::Key(ev) => {
                let n = lemma_pipeline_key_step(
                    s1.pipeline,
                    cfg,
                    s1.keys_down,
                    s1.active,
                    gt,
                    now,
                    held1,
                    ev,
                );
                let w = verdict_writes(
                    pipeline_step(s1.pipeline, cfg, s1.keys_down, s1.active, gt, now, ev).3,
                );
                assert(out == out1 + w);
                assert forall|c: KeyCode| #[trigger] balance(out, c) == pipe_outstanding(
                    s.pipeline,
                    s.active,
                    cfg,
                    input_held(ins),
                    c,
                ) by {
                    lemma_balance_concat(out1, w, c);
                }
                assert forall|c: KeyCode| #[trigger] never_below_zero(out, c) by {
                    lemma_outstanding_nonneg(s.pipeline, s.active, cfg, input_held(ins), c);
                    assert(never_below_zero(out1, c));
                    assert(balance(out1, c) == pipe_outstanding(s1.pipeline, s1.active, cfg, held1, c));
                    lemma_append_step(out1, w, n, c);
                }
            },
            Input::Timer(k) => {
                lemma_pipeline_timer_step(s1.pipeline, s1.active, cfg, s1.keys_down, now, k, held1);
                let w = timer_writes(s1.pipeline, s1.keys_down, now, k).1;
                assert(out == out1 + w);
                assert forall|c: KeyCode| #[trigger] balance(out, c) == pipe_outstanding(
                    s.pipeline,
                    s.active,
                    cfg,
                    input_held(ins),
                    c,
                ) by {
                    lemma_balance_concat(out1, w, c);
                }
                assert forall|c: KeyCode| #[trigger] never_below_zero(out, c) by {
                    lemma_outstanding_nonneg(s.pipeline, s.active, cfg, input_held(ins), c);
                    assert(never_below_zero(out1, c));
                    assert(balance(out1, c) == pipe_outstanding(s1.pipeline, s1.active, cfg, held1, c));
                    lemma_append_step(out1, w, w.len() as int, c);
                }
            },
        }
    }
}

/// Press and release balance of the synthetic device: over any run of key
/// events as a keyboard sends them, interleaved with any timer expiries,
/// starting from a pipeline with nothing held, where no layer switch
/// changes the meaning of a key that is held, no prefix of the writes
/// releases a key more often than it presses it, and once every key is up
/// again each key has been pressed exactly as often as released.
pub proof fn lemma_pipeline_balanced(
    s0: RunState,
    cfg: KeyboardView,
    gt: u16,
    ins: Seq<Stamped>,
    c: KeyCode,
)
    requires
        s0.pipeline.overlaps.active.len() == 0,
        s0.pipeline.overlaps.swallowed == Set::<KeyCode>::empty(),
        s0.pipeline.terms.active.len() == 0,
        inputs_well_formed(ins),
        inputs_layer_stable(s0, cfg, gt, ins),
    ensures
        never_below_zero(pipeline_run(s0, cfg, gt, ins).1, c),
        input_held(ins) == Set::<KeyCode>::empty() ==> balance(pipeline_run(s0, cfg, gt, ins).1, c)
            == 0,
{
    lemma_pipeline_run_inv(s0, cfg, gt, ins);
    let (s, out) = pipeline_run(s0, cfg, gt, ins);
    let p = s.pipeline;
    let held = input_held(ins);
    assert(never_below_zero(out, c));
    assert(balance(out, c) == pipe_outstanding(p, s.active, cfg, held, c));
    if held == Set::<KeyCode>::empty() {
        if p.overlaps.active.len() > 0 {
            assert(held.contains(p.overlaps.active[0].0));
        }
        if p.terms.active.len() > 0 {
            assert(reaches(p.overlaps, held, p.terms.active[0].0));
        }
        assert(!p.overlaps.swallowed.contains(c));
        let g = weights(cfg, p, s.active, held, c);
        assert forall|x: int| 0 <= x < 0x10000 implies #[trigger] g(x) == 0 by {}
        lemma_range_sum_zero(0x10000, g);
        crate::balance::lemma_hold_sum_empty(p.overlaps.active, c);
    }
}

proof fn lemma_physical_balance(layout: Layout, ws: Seq<KeyWrite>, c: KeyCode)
    ensures
        balance(physical_writes(layout, ws), layout.to_physical(c)) == balance(ws, c),
    decreases ws.len(),
{
    if ws.len() > 0 {
        assert(physical_writes(layout, ws).drop_last() =~= physical_writes(layout, ws.drop_last()));
        lemma_physical_balance(layout, ws.drop_last(), c);
        lemma_layout_round_trip(layout, ws.last().code);
        lemma_layout_round_trip(layout, c);
    }
}

/// The balance of the pipeline, on the synthetic device itself: with the
/// same conditions, the writes in physical codes never release a key more
/// often than they pressed it, and once every key is up again each key
/// has been pressed exactly as often as released.
pub proof fn lemma_device_balanced(
    s0: RunState,
    cfg: KeyboardView,
    gt: u16,
    ins: Seq<Stamped>,
    d: KeyCode,
)
    requires
        s0.pipeline.overlaps.active.len() == 0,
        s0.pipeline.overlaps.swallowed == Set::<KeyCode>::empty(),
        s0.pipeline.terms.active.len() == 0,
        inputs_well_formed(ins),
        inputs_layer_stable(s0, cfg, gt, ins),
    ensures
        never_below_zero(physical_writes(cfg.layout, pipeline_run(s0, cfg, gt, ins).1), d),
        input_held(ins) == Set::<KeyCode>::empty() ==> balance(
            physical_writes(cfg.layout, pipeline_run(s0, cfg, gt, ins).1),
            d,
        ) == 0,
{
    let out = pipeline_run(s0, cfg, gt, ins).1;
    let layout = cfg.layout;
    let c = layout.to_logical(d);
    lemma_layout_round_trip(layout, d);
    lemma_pipeline_balanced(s0, cfg, gt, ins, c);
    lemma_physical_balance(layout, out, c);
    let phys = physical_writes(layout, out);
    assert forall|j: int| 0 <= j <= phys.len() implies balance(#[trigger] phys.take(j), d) >= 0 by {
        assert(phys.take(j) =~= physical_writes(layout, out.take(j)));
        lemma_physical_balance(layout, out.take(j), c);
        assert(balance(out.take(j), c) >= 0);
    }
}

/// Over such a run, a key is in at most one of the overlap entries, the
/// keys whose press went out early, and the term entries.
pub proof fn lemma_one_table_per_key(
    s0: RunState,
    cfg: KeyboardView,
    gt: u16,
    ins: Seq<Stamped>,
    x: KeyCode,
)
    requires
        s0.pipeline.overlaps.active.len() == 0,
        s0.pipeline.overlaps.swallowed == Set::<KeyCode>::empty(),
        s0.pipeline.terms.active.len() == 0,
        inputs_well_formed(ins),
        inputs_layer_stable(s0, cfg, gt, ins),
    ensures
        ({
            let p = pipeline_run(s0, cfg, gt, ins).0.pipeline;
            &&& !(keys_of(p.overlaps.active).contains(x) && p.overlaps.swallowed.contains(x))
            &&& !(keys_of(p.overlaps.active).contains(x) && keys_of(p.terms.active).contains(x))
            &&& !(p.overlaps.swallowed.contains(x) && keys_of(p.terms.active).contains(x))
        }),
{
    lemma_pipeline_run_inv(s0, cfg, gt, ins);
    let p = pipeline_run(s0, cfg, gt, ins).0.pipeline;
    if keys_of(p.terms.active).contains(x) {
        let j = choose|j: int| 0 <= j < p.terms.active.len() && p.terms.active[j].0 == x;
        assert(reaches(p.overlaps, input_held(ins), p.terms.active[j].0));
    }
}

} // verus!
