//! The ordered chain of features: overlaps, then layers, then terms.
use vstd::prelude::*;
use crate::config::{Features, KeyboardView};
use crate::features::layers::{layers_step, LayersFeature};
use crate::features::overlaps::{overlaps_step, OverlapsFeature, OverlapsView};
use crate::features::terms::{timer_step, terms_step, TermsFeature, TermsView, TimerRequest};
use crate::features::{directives_writes, verdict_writes, Context, Feature, FeatureResult, KeyEvent, KeyWrite, Verdict};
use crate::io::{emit, emit_passthrough, physical_writes};
use crate::keys::{is_key_state, KeyCode};
use crate::layouts::Layout;

verus! {

/// The features of one keyboard, in the order events pass through them.
pub struct Pipeline {
    overlaps: OverlapsFeature,
    layers: LayersFeature,
    terms: TermsFeature,
    enabled: Features,
}

pub struct PipelineView {
    pub overlaps: OverlapsView,
    pub terms: TermsView,
    pub enabled: Features,
}

impl View for Pipeline {
    type V = PipelineView;

    closed spec fn view(&self) -> PipelineView {
        PipelineView { overlaps: self.overlaps@, terms: self.terms@, enabled: self.enabled }
    }
}

/// One event through the pipeline. Each enabled feature in turn sees the
/// event while the verdict is `Continue`; the first other verdict ends the
/// chain. Returns the features' new state, the keys held, the active
/// layers and the final verdict.
pub open spec fn pipeline_step(
    p: PipelineView,
    cfg: KeyboardView,
    keys_down: Set<KeyCode>,
    active: Seq<bool>,
    global_term: u16,
    now: u64,
    ev: KeyEvent,
) -> (PipelineView, Set<KeyCode>, Seq<bool>, Verdict) {
    let (ov, v1) = if p.enabled.overlaps {
        overlaps_step(p.overlaps, cfg, ev)
    } else {
        (p.overlaps, Verdict::Continue(ev))
    };
    match v1 {
        Verdict::Continue(e1) => {
            let (kd2, act2, v2) = if p.enabled.layers {
                layers_step(cfg, keys_down, active, e1)
            } else {
                (keys_down, active, Verdict::Continue(e1))
            };
            match v2 {
                Verdict::Continue(e2) => {
                    let (tv, kd3, v3) = if p.enabled.terms {
                        terms_step(p.terms, cfg, kd2, global_term, now, e2)
                    } else {
                        (p.terms, kd2, Verdict::Continue(e2))
                    };
                    (PipelineView { overlaps: ov, terms: tv, enabled: p.enabled }, kd3, act2, v3)
                },
                _ => (PipelineView { overlaps: ov, terms: p.terms, enabled: p.enabled }, kd2, act2, v2),
            }
        },
        _ => (PipelineView { overlaps: ov, terms: p.terms, enabled: p.enabled }, keys_down, active, v1),
    }
}

/// The writes, in physical codes, that carry out a verdict.
pub fn dispatch(layout: Layout, result: &FeatureResult) -> (r: Vec<KeyWrite>)
    ensures
        r@ == physical_writes(layout, verdict_writes(result@)),
{
    match result {
        FeatureResult::Continue(e) => {
            let w = emit_passthrough(layout, e.key, e.state);
            let r = vec![w];
            assert(r@ =~= physical_writes(layout, verdict_writes(result@)));
            r
        },
        FeatureResult::Emit(out) => emit(layout, out),
        FeatureResult::Consume => {
            let r: Vec<KeyWrite> = Vec::new();
            assert(r@ =~= physical_writes(layout, verdict_writes(result@)));
            r
        },
    }
}

/// A verdict of `Consume` sends nothing to the synthetic device.
pub proof fn lemma_consume_is_silent(layout: Layout)
    ensures
        physical_writes(layout, verdict_writes(Verdict::Consume)).len() == 0,
{
}

impl Pipeline {
    /// The features' own state is consistent.
    pub closed spec fn wf(&self) -> bool {
        self.overlaps.inv() && self.terms.inv()
    }

    /// A pipeline running the features that `enabled` switches on, with
    /// nothing held.
    pub fn new(enabled: Features) -> (r: Pipeline)
        ensures
            r.wf(),
            r@.enabled == enabled,
            r@.overlaps.active.len() == 0,
            r@.overlaps.swallowed == Set::<KeyCode>::empty(),
            r@.terms.active.len() == 0,
            r@.terms.requests.len() == 0,
    {
        Pipeline {
            overlaps: OverlapsFeature::new(),
            layers: LayersFeature::new(),
            terms: TermsFeature::new(),
            enabled,
        }
    }

    /// Runs a key event from the device through the features and returns
    /// the writes for the synthetic device, in physical codes. `key` is a
    /// physical code; the features see its logical code.
    pub fn process_event(&mut self, ctx: &mut Context, key: KeyCode, state: i32) -> (r: Vec<
        KeyWrite,
    >)
        requires
            old(self).wf(),
            old(ctx).wf(),
            is_key_state(state),
        ensures
            final(self).wf(),
            final(ctx).wf(),
            final(ctx).same_settings(old(ctx)),
            ({
                let cfg = old(ctx).device_config@;
                let ev = KeyEvent { key: cfg.layout.to_logical(key), state };
                let (p, kd, act, v) = pipeline_step(
                    old(self)@,
                    cfg,
                    old(ctx).keys_down@,
                    old(ctx).active_layers@,
                    old(ctx).global_term,
                    old(ctx).now,
                    ev,
                );
                &&& final(self)@ == p
                &&& final(ctx).keys_down@ == kd
                &&& final(ctx).active_layers@ == act
                &&& r@ == physical_writes(cfg.layout, verdict_writes(v))
            }),
    {
        let layout = ctx.device_config.layout;
        let ev = KeyEvent { key: layout.resolve(&key), state };
        let mut result = FeatureResult::Continue(ev);
        if self.enabled.overlaps {
            result = self.overlaps.on_event(ev, ctx);
        }
        match result {
            FeatureResult::Continue(e1) => {
                if self.enabled.layers {
                    result = self.layers.on_event(e1, ctx);
                }
                match result {
                    FeatureResult::Continue(e2) => {
                        if self.enabled.terms {
                            result = self.terms.on_event(e2, ctx);
                        }
                    },
                    _ => {},
                }
            },
            _ => {},
        }
        dispatch(layout, &result)
    }

    /// Runs the expiry of a timer for `key`, a logical code, through the
    /// features and returns the writes for the synthetic device.
    pub fn process_timer_event(&mut self, ctx: &mut Context, key: KeyCode) -> (r: Vec<KeyWrite>)
        requires
            old(self).wf(),
            old(ctx).wf(),
        ensures
            final(self).wf(),
            *final(ctx) == *old(ctx),
            final(self)@.enabled == old(self)@.enabled,
            final(self)@.overlaps == old(self)@.overlaps,
            old(self)@.enabled.terms ==> ({
                let (st, out) = timer_step(old(self)@.terms, old(ctx).keys_down@, old(ctx).now, key);
                &&& final(self)@.terms == st
                &&& r@ == match out {
                    Some(ds) => physical_writes(old(ctx).device_config.layout, directives_writes(ds)),
                    None => Seq::empty(),
                }
            }),
            !old(self)@.enabled.terms ==> final(self)@ == old(self)@ && r@.len() == 0,
    {
        if self.enabled.terms {
            match self.terms.on_timer(key, ctx) {
                Some(out) => emit(ctx.device_config.layout, &out),
                None => Vec::new(),
            }
        } else {
            Vec::new()
        }
    }

    /// Hands over the timers that the features asked for since the last
    /// call.
    pub fn take_timer_requests(&mut self) -> (r: Vec<TimerRequest>)
        requires
            old(self).wf(),
        ensures
            final(self).wf(),
            r@ == old(self)@.terms.requests,
            final(self)@.terms.requests.len() == 0,
            final(self)@.terms.active == old(self)@.terms.active,
            final(self)@.overlaps == old(self)@.overlaps,
            final(self)@.enabled == old(self)@.enabled,
    {
        self.terms.take_timer_requests()
    }
}

} // verus!
