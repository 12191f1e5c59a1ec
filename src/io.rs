//! From directives to the writes the synthetic device receives.
use vstd::prelude::*;
use crate::features::{
    directive_writes, directives, directives_writes, KeyWrite, OutputEvent,
};
use crate::keys::{KeyCode, PRESS, RELEASE};
use crate::layouts::Layout;

verus! {

/// `ws` with each code translated to the physical space of `layout`.
pub open spec fn physical_writes(layout: Layout, ws: Seq<KeyWrite>) -> Seq<KeyWrite> {
    ws.map_values(|w: KeyWrite| KeyWrite { code: layout.to_physical(w.code), value: w.value })
}

fn push_all(out: &mut Vec<KeyWrite>, layout: Layout, keys: &Vec<KeyCode>, value: i32)
    ensures
        final(out)@ == old(out)@ + physical_writes(
            layout,
            keys@.map_values(|k: KeyCode| KeyWrite { code: k, value: value }),
        ),
{
    let ghost start = out@;
    let mut i: usize = 0;
    while i < keys.len()
        invariant
            i <= keys@.len(),
            out@ == start + physical_writes(
                layout,
                keys@.take(i as int).map_values(|k: KeyCode| KeyWrite { code: k, value: value }),
            ),
        decreases keys@.len() - i,
    {
        let code = layout.resolve_reverse(&keys[i]);
        out.push(KeyWrite { code, value });
        i = i + 1;
        assert(keys@.take(i as int).map_values(|k: KeyCode| KeyWrite { code: k, value: value })
            =~= keys@.take(i - 1).map_values(|k: KeyCode| KeyWrite { code: k, value: value }).push(
            KeyWrite { code: keys@[i - 1], value: value },
        ));
        assert(out@ =~= start + physical_writes(
            layout,
            keys@.take(i as int).map_values(|k: KeyCode| KeyWrite { code: k, value: value }),
        ));
    }
    assert(keys@.take(i as int) =~= keys@);
}

/// The writes that carry out `events`, in order, in physical codes. The
/// caller sends them and then one synchronization.
pub fn emit(layout: Layout, events: &Vec<OutputEvent>) -> (r: Vec<KeyWrite>)
    ensures
        r@ == physical_writes(layout, directives_writes(directives(events@))),
{
    let mut out: Vec<KeyWrite> = Vec::new();
    let mut i: usize = 0;
    while i < events.len()
        invariant
            i <= events@.len(),
            out@ == physical_writes(layout, directives_writes(directives(events@.take(i as int)))),
        decreases events@.len() - i,
    {
        let ghost before = out@;
        match &events[i] {
            OutputEvent::Press(k) => {
                let code = layout.resolve_reverse(k);
                out.push(KeyWrite { code, value: PRESS });
            },
            OutputEvent::Release(k) => {
                let code = layout.resolve_reverse(k);
                out.push(KeyWrite { code, value: RELEASE });
            },
            OutputEvent::PressMany(keys) => {
                push_all(&mut out, layout, keys, PRESS);
            },
            OutputEvent::ReleaseMany(keys) => {
                push_all(&mut out, layout, keys, RELEASE);
            },
        }
        proof {
            let ds = directives(events@.take(i as int + 1));
            assert(ds.drop_last() =~= directives(events@.take(i as int)));
            assert(ds.last() == events@[i as int]@);
            assert(out@ =~= before + physical_writes(layout, directive_writes(events@[i as int]@)));
            assert(physical_writes(layout, directives_writes(ds)) =~= physical_writes(
                layout,
                directives_writes(ds.drop_last()),
            ) + physical_writes(layout, directive_writes(ds.last())));
        }
        i = i + 1;
    }
    assert(events@.take(i as int) =~= events@);
    out
}

/// The write that passes an event through unchanged, in physical codes.
/// The caller sends it and then one synchronization.
pub fn emit_passthrough(layout: Layout, key: KeyCode, state: i32) -> (r: KeyWrite)
    ensures
        r == (KeyWrite { code: layout.to_physical(key), value: state }),
{
    KeyWrite { code: layout.resolve_reverse(&key), value: state }
}

} // verus!
