//! Layers: named alternative key maps, active while a trigger is held.
use vstd::prelude::*;
use crate::config::{layered_target, trigger_layer, KeyboardView};
use crate::features::{Context, Directive, Feature, FeatureResult, KeyEvent, OutputEvent, Verdict};
use crate::keys::{KeyCode, PRESS};

verus! {

/// Layer state lives in the context: this feature keeps nothing itself.
pub struct LayersFeature;

/// The layer feature on one event, over the keys held and the layers
/// active: a trigger switches its layer and is consumed; a key that an
/// active layer maps is replaced by its targets; any other key goes on.
pub open spec fn layers_step(
    cfg: KeyboardView,
    keys_down: Set<KeyCode>,
    active: Seq<bool>,
    ev: KeyEvent,
) -> (Set<KeyCode>, Seq<bool>, Verdict) {
    match trigger_layer(cfg, ev.key) {
        Some(i) => if ev.state == PRESS {
            (keys_down.insert(ev.key), active.update(i, true), Verdict::Consume)
        } else {
            (keys_down.remove(ev.key), active.update(i, false), Verdict::Consume)
        },
        None => match layered_target(cfg, active, ev.key) {
            None => (keys_down, active, Verdict::Continue(ev)),
            Some(s) => if ev.state == PRESS {
                (keys_down, active, Verdict::Emit(seq![Directive::PressMany(s)]))
            } else {
                (keys_down, active, Verdict::Emit(seq![Directive::ReleaseMany(s)]))
            },
        },
    }
}

impl LayersFeature {
    /// The layer feature; its state lives in the context.
    pub fn new() -> (r: Self) {
        LayersFeature
    }
}

impl Feature for LayersFeature {
    open spec fn inv(&self) -> bool {
        true
    }

    fn name(&self) -> &'static str {
        "layers"
    }

    fn on_event(&mut self, event: KeyEvent, ctx: &mut Context) -> (r: FeatureResult)
        ensures
            ({
                let (kd, act, v) = layers_step(
                    old(ctx).device_config@,
                    old(ctx).keys_down@,
                    old(ctx).active_layers@,
                    event,
                );
                &&& final(ctx).keys_down@ == kd
                &&& final(ctx).active_layers@ == act
                &&& r@ == v
            }),
    {
        match ctx.device_config.trigger_layer_index(event.key) {
            Some(i) => {
                if event.state == PRESS {
                    ctx.active_layers.set(i, true);
                    ctx.keys_down.insert(event.key);
                } else {
                    ctx.active_layers.set(i, false);
                    ctx.keys_down.remove(event.key);
                }
                FeatureResult::Consume
            },
            None => match ctx.device_config.layered_keys(&ctx.active_layers, event.key) {
                None => FeatureResult::Continue(event),
                Some(keys) => {
                    let out = if event.state == PRESS {
                        OutputEvent::PressMany(keys)
                    } else {
                        OutputEvent::ReleaseMany(keys)
                    };
                    let v = vec![out];
                    proof {
                        assert(crate::features::directives(v@) =~= seq![out@]);
                    }
                    FeatureResult::Emit(v)
                },
            },
        }
    }

    fn on_timer(&mut self, key: KeyCode, ctx: &mut Context) -> (r: Option<Vec<OutputEvent>>)
        ensures
            r is None,
            *final(ctx) == *old(ctx),
    {
        None
    }
}


/// With a single active layer, what a key that is no trigger stands for is
/// that layer's target and nothing else: the result depends on the event,
/// the configuration and that layer alone, and not on the keys held.
pub proof fn lemma_single_layer_resolution(
    cfg: KeyboardView,
    keys_down1: Set<KeyCode>,
    keys_down2: Set<KeyCode>,
    active: Seq<bool>,
    i: int,
    ev: KeyEvent,
)
    requires
        active.len() == cfg.layers.len(),
        0 <= i < active.len(),
        active[i],
        forall|j: int| 0 <= j < active.len() && j != i ==> !active[j],
        trigger_layer(cfg, ev.key) is None,
    ensures
        layered_target(cfg, active, ev.key) == crate::config::layer_target(cfg.layers[i], ev.key),
        layers_step(cfg, keys_down1, active, ev).2 == layers_step(cfg, keys_down2, active, ev).2,
        layers_step(cfg, keys_down1, active, ev).1 == active,
{
    let k = ev.key;
    if crate::config::layer_target(cfg.layers[i], k) is Some {
        assert(crate::config::is_first_mapping_layer(cfg.layers, active, k, i));
        let c = choose|c: int| crate::config::is_first_mapping_layer(cfg.layers, active, k, c);
        assert(c == i);
    } else {
        assert(!exists|c: int| crate::config::is_first_mapping_layer(cfg.layers, active, k, c));
    }
}

} // verus!
