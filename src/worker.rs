//! The decisions of the per-device worker: which raw events reach the
//! pipeline, what a timer does, and what goes out when the worker stops.
use vstd::prelude::*;
use crate::config::{Features, Globals, KeyboardConfig};
use crate::features::terms::{timer_step, TimerRequest};
use crate::features::{directives_writes, release_all, verdict_writes, Context, KeyEvent, KeyWrite};
use crate::io::physical_writes;
use crate::keys::{KeyCode, EV_KEY, PRESS, RELEASE};
use crate::pipeline::{pipeline_step, Pipeline, PipelineView};

verus! {

/// The state a worker keeps for one device.
pub struct Worker {
    pipeline: Pipeline,
    ctx: Context,
}

/// Whether a raw event from the device reaches the pipeline: key events
/// that press or release; repeats and other event types are dropped.
pub open spec fn is_pipeline_event(event_type: u16, value: i32) -> bool {
    event_type == EV_KEY && (value == PRESS || value == RELEASE)
}

impl Worker {
    /// The pipeline and the context are consistent.
    pub closed spec fn wf(&self) -> bool {
        self.pipeline.wf() && self.ctx.wf()
    }

    /// The state of the features.
    pub closed spec fn pipeline_view(&self) -> PipelineView {
        self.pipeline@
    }

    /// The context the features share.
    pub closed spec fn context(&self) -> Context {
        self.ctx
    }

    /// A worker for a keyboard with configuration `device_config`, with no
    /// key held and no layer active.
    pub fn new(device_config: KeyboardConfig, globals: &Globals, features: Features) -> (r: Worker)
        ensures
            r.wf(),
            r.context().device_config == device_config,
            r.context().keys_down@ == Set::<KeyCode>::empty(),
            r.pipeline_view().enabled == features,
            r.pipeline_view().overlaps.active.len() == 0,
            r.pipeline_view().terms.active.len() == 0,
    {
        Worker { pipeline: Pipeline::new(features), ctx: Context::new(device_config, globals) }
    }

    /// Handles a raw event read from the device at `now` (milliseconds
    /// since the worker started) and returns the writes for the synthetic
    /// device, in physical codes.
    pub fn on_input(&mut self, event_type: u16, code: u16, value: i32, now: u64) -> (r: Vec<KeyWrite>)
        requires
            old(self).wf(),
        ensures
            final(self).wf(),
            final(self).context().device_config == old(self).context().device_config,
            !is_pipeline_event(event_type, value) ==> r@.len() == 0 && final(self).pipeline_view()
                == old(self).pipeline_view() && final(self).context() == old(self).context(),
            is_pipeline_event(event_type, value) ==> ({
                let ctx = old(self).context();
                let cfg = ctx.device_config@;
                let ev = KeyEvent { key: cfg.layout.to_logical(code), state: value };
                let (p, kd, act, v) = pipeline_step(
                    old(self).pipeline_view(),
                    cfg,
                    ctx.keys_down@,
                    ctx.active_layers@,
                    ctx.global_term,
                    now,
                    ev,
                );
                &&& final(self).pipeline_view() == p
                &&& final(self).context().keys_down@ == kd
                &&& final(self).context().active_layers@ == act
                &&& final(self).context().now == now
                &&& r@ == physical_writes(cfg.layout, verdict_writes(v))
            }),
    {
        if event_type != EV_KEY || !(value == PRESS || value == RELEASE) {
            return Vec::new();
        }
        self.ctx.now = now;
        self.pipeline.process_event(&mut self.ctx, code, value)
    }

    /// Handles the expiry, seen at `now`, of a timer for logical key `key`.
    pub fn on_timer(&mut self, key: KeyCode, now: u64) -> (r: Vec<KeyWrite>)
        requires
            old(self).wf(),
        ensures
            final(self).wf(),
            final(self).context().device_config == old(self).context().device_config,
            final(self).context().keys_down@ == old(self).context().keys_down@,
            final(self).context().now == now,
            old(self).pipeline_view().enabled.terms ==> ({
                let (st, out) = timer_step(
                    old(self).pipeline_view().terms,
                    old(self).context().keys_down@,
                    now,
                    key,
                );
                &&& final(self).pipeline_view().terms == st
                &&& r@ == match out {
                    Some(ds) => physical_writes(
                        old(self).context().device_config.layout,
                        directives_writes(ds),
                    ),
                    None => Seq::empty(),
                }
            }),
            !old(self).pipeline_view().enabled.terms ==> r@.len() == 0,
    {
        self.ctx.now = now;
        self.pipeline.process_timer_event(&mut self.ctx, key)
    }

    /// Hands over the timers asked for since the last call; the caller runs
    /// each and reports its expiry through `on_timer`.
    pub fn take_timer_requests(&mut self) -> (r: Vec<TimerRequest>)
        requires
            old(self).wf(),
        ensures
            final(self).wf(),
            r@ == old(self).pipeline_view().terms.requests,
            final(self).pipeline_view().terms.requests.len() == 0,
            final(self).context() == old(self).context(),
    {
        self.pipeline.take_timer_requests()
    }

    /// The writes to send before the synthetic device goes away: a release
    /// of every key held, in physical codes.
    pub fn shutdown_writes(&self) -> (r: Vec<KeyWrite>)
        requires
            self.wf(),
        ensures
            r@ == physical_writes(
                self.context().device_config.layout,
                release_all(self.context().keys_down.order()),
            ),
            forall|k: KeyCode| #[trigger] self.context().keys_down@.contains(k) ==> r@.contains(
                KeyWrite {
                    code: self.context().device_config.layout.to_physical(k),
                    value: RELEASE,
                },
            ),
    {
        let layout = self.ctx.device_config.layout;
        let keys = self.ctx.keys_down.to_vec();
        let mut out: Vec<KeyWrite> = Vec::new();
        let mut i: usize = 0;
        while i < keys.len()
            invariant
                i <= keys@.len(),
                out@ == physical_writes(layout, release_all(keys@.take(i as int))),
            decreases keys@.len() - i,
        {
            out.push(KeyWrite { code: layout.resolve_reverse(&keys[i]), value: RELEASE });
            i = i + 1;
            assert(out@ =~= physical_writes(layout, release_all(keys@.take(i as int))));
        }
        assert(keys@.take(i as int) =~= keys@);
        proof {
            self.ctx.keys_down.lemma_order();
            assert forall|k: KeyCode| #[trigger] self.ctx.keys_down@.contains(k) implies out@.contains(
                KeyWrite { code: layout.to_physical(k), value: RELEASE },
            ) by {
                assert(keys@.to_set().contains(k));
                let j = choose|j: int| 0 <= j < keys@.len() && keys@[j] == k;
                assert(out@[j] == KeyWrite { code: layout.to_physical(k), value: RELEASE });
            }
        }
        out
    }

    /// Whether writes to the synthetic device are to be left out.
    pub fn no_emit(&self) -> (r: bool)
        ensures
            r == self.context().no_emit,
    {
        self.ctx.no_emit
    }

    /// The layout of this keyboard.
    pub fn layout(&self) -> (r: crate::layouts::Layout)
        ensures
            r == self.context().device_config.layout,
    {
        self.ctx.device_config.layout
    }
}

} // verus!
