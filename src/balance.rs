//! Press and release balance of the writes a run of events produces.
use vstd::prelude::*;
use crate::config::KeyboardView;
use crate::features::overlaps::{first_untriggered, is_first_untriggered, is_overlap_key, overlaps_step, OverlapEntry, OverlapsView};
use crate::features::{directive_writes, directives_writes, press_all, release_all, verdict_writes, Directive, KeyEvent, KeyWrite};
use crate::keys::{is_key_state, KeyCode, PRESS, RELEASE};
use crate::table::{key_index, keys_of, keys_unique, lemma_put_unique, lemma_remove_unique, lemma_unique_index};

verus! {

/// What one write adds to the number of times `c` is down.
pub open spec fn delta(w: KeyWrite, c: KeyCode) -> int {
    if w.code == c && w.value == PRESS {
        1
    } else if w.code == c && w.value == RELEASE {
        -1
    } else {
        0
    }
}

/// Presses of `c` in `ws` minus releases of `c` in `ws`.
pub open spec fn balance(ws: Seq<KeyWrite>, c: KeyCode) -> int
    decreases ws.len(),
{
    if ws.len() == 0 {
        0
    } else {
        balance(ws.drop_last(), c) + delta(ws.last(), c)
    }
}

/// How often `c` occurs in `ks`.
pub open spec fn occurrences(ks: Seq<KeyCode>, c: KeyCode) -> int
    decreases ks.len(),
{
    if ks.len() == 0 {
        0
    } else {
        occurrences(ks.drop_last(), c) + if ks.last() == c {
            1int
        } else {
            0int
        }
    }
}

/// No prefix of `ws` releases `c` more often than it presses it.
pub open spec fn never_below_zero(ws: Seq<KeyWrite>, c: KeyCode) -> bool {
    forall|j: int| 0 <= j <= ws.len() ==> balance(#[trigger] ws.take(j), c) >= 0
}

/// `ws` presses first and releases after.
pub open spec fn presses_then_releases(ws: Seq<KeyWrite>, n: int) -> bool {
    &&& 0 <= n <= ws.len()
    &&& forall|i: int| 0 <= i < n ==> (#[trigger] ws[i]).value == PRESS
    &&& forall|i: int| n <= i < ws.len() ==> (#[trigger] ws[i]).value == RELEASE
}

pub(crate) proof fn lemma_balance_concat(a: Seq<KeyWrite>, b: Seq<KeyWrite>, c: KeyCode)
    ensures
        balance(a + b, c) == balance(a, c) + balance(b, c),
    decreases b.len(),
{
    if b.len() == 0 {
        assert(a + b =~= a);
    } else {
        assert((a + b).drop_last() =~= a + b.drop_last());
        lemma_balance_concat(a, b.drop_last(), c);
    }
}

pub(crate) proof fn lemma_press_all(ks: Seq<KeyCode>, c: KeyCode)
    ensures
        balance(press_all(ks), c) == occurrences(ks, c),
        balance(release_all(ks), c) == -occurrences(ks, c),
        occurrences(ks, c) >= 0,
    decreases ks.len(),
{
    if ks.len() > 0 {
        assert(press_all(ks).drop_last() =~= press_all(ks.drop_last()));
        assert(release_all(ks).drop_last() =~= release_all(ks.drop_last()));
        lemma_press_all(ks.drop_last(), c);
    }
}

pub(crate) proof fn lemma_prefix_of_presses(ws: Seq<KeyWrite>, n: int, j: int, c: KeyCode)
    requires
        presses_then_releases(ws, n),
        0 <= j <= n,
    ensures
        balance(ws.take(j), c) >= 0,
    decreases j,
{
    if j > 0 {
        assert(ws.take(j).drop_last() =~= ws.take(j - 1));
        lemma_prefix_of_presses(ws, n, j - 1, c);
    }
}

pub(crate) proof fn lemma_prefix_of_releases(ws: Seq<KeyWrite>, n: int, j: int, c: KeyCode)
    requires
        presses_then_releases(ws, n),
        n <= j <= ws.len(),
    ensures
        balance(ws.take(j), c) >= balance(ws, c),
    decreases ws.len() - j,
{
    if j == ws.len() {
        assert(ws.take(j) =~= ws);
    } else {
        assert(ws.take(j + 1).drop_last() =~= ws.take(j));
        lemma_prefix_of_releases(ws, n, j + 1, c);
    }
}

/// Appending writes that press first and release after to writes that
/// never went below zero, where the end is not below zero, never goes
/// below zero.
pub(crate) proof fn lemma_append_step(out: Seq<KeyWrite>, w: Seq<KeyWrite>, n: int, c: KeyCode)
    requires
        never_below_zero(out, c),
        presses_then_releases(w, n),
        balance(out, c) + balance(w, c) >= 0,
    ensures
        never_below_zero(out + w, c),
        balance(out + w, c) == balance(out, c) + balance(w, c),
{
    lemma_balance_concat(out, w, c);
    assert forall|j: int| 0 <= j <= (out + w).len() implies balance(#[trigger] (out + w).take(j), c) >= 0 by {
        if j <= out.len() {
            assert((out + w).take(j) =~= out.take(j));
        } else {
            let j2 = j - out.len();
            assert((out + w).take(j) =~= out + w.take(j2));
            lemma_balance_concat(out, w.take(j2), c);
            assert(out.take(out.len() as int) =~= out);
            if j2 <= n {
                lemma_prefix_of_presses(w, n, j2, c);
            } else {
                lemma_prefix_of_releases(w, n, j2, c);
            }
        }
    }
}

pub(crate) proof fn lemma_writes_of_one(d: Directive)
    ensures
        directives_writes(seq![d]) == directive_writes(d),
{
    reveal_with_fuel(directives_writes, 2);
    assert(seq![d].drop_last() =~= Seq::<Directive>::empty());
    assert(Seq::<KeyWrite>::empty() + directive_writes(d) =~= directive_writes(d));
}

pub(crate) proof fn lemma_balance_single(x: KeyWrite, c: KeyCode)
    ensures
        balance(seq![x], c) == delta(x, c),
{
    reveal_with_fuel(balance, 2);
    assert(seq![x].drop_last() =~= Seq::<KeyWrite>::empty());
}

pub(crate) proof fn lemma_writes_of_two(d1: Directive, d2: Directive)
    ensures
        directives_writes(seq![d1, d2]) == directive_writes(d1) + directive_writes(d2),
{
    assert(seq![d1, d2].drop_last() =~= seq![d1]);
    lemma_writes_of_one(d1);
}

/// What a held overlap entry keeps down: its hold, once triggered.
pub open spec fn contribution(e: OverlapEntry, c: KeyCode) -> int {
    if e.triggered {
        occurrences(e.hold, c)
    } else {
        0
    }
}

/// How often `c` is down through the holds of triggered entries.
pub open spec fn hold_sum(m: Seq<(KeyCode, OverlapEntry)>, c: KeyCode) -> int
    decreases m.len(),
{
    if m.len() == 0 {
        0
    } else {
        hold_sum(m.drop_last(), c) + contribution(m.last().1, c)
    }
}

pub(crate) proof fn lemma_hold_sum_remove(m: Seq<(KeyCode, OverlapEntry)>, i: int, c: KeyCode)
    requires
        0 <= i < m.len(),
    ensures
        hold_sum(m.remove(i), c) == hold_sum(m, c) - contribution(m[i].1, c),
    decreases m.len(),
{
    if i == m.len() - 1 {
        assert(m.remove(i) =~= m.drop_last());
    } else {
        assert(m.remove(i).drop_last() =~= m.drop_last().remove(i));
        assert(m.remove(i).last() == m.last());
        lemma_hold_sum_remove(m.drop_last(), i, c);
    }
}

pub(crate) proof fn lemma_hold_sum_update(
    m: Seq<(KeyCode, OverlapEntry)>,
    i: int,
    x: (KeyCode, OverlapEntry),
    c: KeyCode,
)
    requires
        0 <= i < m.len(),
    ensures
        hold_sum(m.update(i, x), c) == hold_sum(m, c) - contribution(m[i].1, c) + contribution(
            x.1,
            c,
        ),
    decreases m.len(),
{
    if i == m.len() - 1 {
        assert(m.update(i, x).drop_last() =~= m.drop_last());
    } else {
        assert(m.update(i, x).drop_last() =~= m.drop_last().update(i, x));
        lemma_hold_sum_update(m.drop_last(), i, x, c);
    }
}

pub(crate) proof fn lemma_occurrences_nonneg(ks: Seq<KeyCode>, c: KeyCode)
    ensures
        occurrences(ks, c) >= 0,
    decreases ks.len(),
{
    if ks.len() > 0 {
        lemma_occurrences_nonneg(ks.drop_last(), c);
    }
}

pub(crate) proof fn lemma_hold_sum_empty(m: Seq<(KeyCode, OverlapEntry)>, c: KeyCode)
    requires
        m.len() == 0,
    ensures
        hold_sum(m, c) == 0,
{
}

/// The keys held after `ev`, where `held` were held before.
pub open spec fn held_after(held: Set<KeyCode>, ev: KeyEvent) -> Set<KeyCode> {
    if ev.state == PRESS {
        held.insert(ev.key)
    } else {
        held.remove(ev.key)
    }
}

/// How the overlap state relates to the keys held.
pub open spec fn overlap_state_ok(st: OverlapsView, cfg: KeyboardView, held: Set<KeyCode>) -> bool {
    &&& keys_unique(st.active)
    &&& forall|i: int|
        0 <= i < st.active.len() ==> held.contains(#[trigger] st.active[i].0) && is_overlap_key(
            cfg,
            st.active[i].0,
        )
    &&& forall|k: KeyCode| #[trigger]
        st.swallowed.contains(k) ==> held.contains(k) && !keys_of(st.active).contains(k)
}

/// How often `c` should be down on the synthetic device: once where the
/// key is held and no overlap entry holds it back, plus once for each
/// occurrence in the hold of a triggered entry.
pub open spec fn outstanding(st: OverlapsView, held: Set<KeyCode>, c: KeyCode) -> int {
    (if held.contains(c) && !keys_of(st.active).contains(c) {
        1int
    } else {
        0int
    }) + hold_sum(st.active, c)
}

pub(crate) proof fn lemma_keys_of_index(m: Seq<(KeyCode, OverlapEntry)>, i: int)
    requires
        0 <= i < m.len(),
    ensures
        keys_of(m).contains(m[i].0),
{
}

pub(crate) proof fn lemma_overlaps_step_balance(
    st: OverlapsView,
    cfg: KeyboardView,
    held: Set<KeyCode>,
    ev: KeyEvent,
) -> (n: int)
    requires
        overlap_state_ok(st, cfg, held),
        is_key_state(ev.state),
        ev.state == PRESS <==> !held.contains(ev.key),
    ensures
        overlap_state_ok(overlaps_step(st, cfg, ev).0, cfg, held_after(held, ev)),
        presses_then_releases(verdict_writes(overlaps_step(st, cfg, ev).1), n),
        forall|c: KeyCode|
            outstanding(st, held, c) + balance(verdict_writes(overlaps_step(st, cfg, ev).1), c)
                == #[trigger] outstanding(overlaps_step(st, cfg, ev).0, held_after(held, ev), c),
        forall|x: KeyCode|
            x != ev.key ==> (#[trigger] keys_of(overlaps_step(st, cfg, ev).0.active).contains(x)
                == keys_of(st.active).contains(x) && overlaps_step(st, cfg, ev).0.swallowed.contains(x)
                == st.swallowed.contains(x)),
{
    let k = ev.key;
    let (st2, v) = overlaps_step(st, cfg, ev);
    let held2 = held_after(held, ev);
    let w = verdict_writes(v);
    lemma_unique_index(st.active, k);
    if st.swallowed.contains(k) {
        assert(ev.state != PRESS);
        lemma_writes_of_one(Directive::Release(k));
        assert(w =~= seq![KeyWrite { code: k, value: RELEASE }]);
        assert forall|c: KeyCode| outstanding(st, held, c) + balance(w, c) == #[trigger] outstanding(
            st2,
            held2,
            c,
        ) by {
            lemma_balance_single(KeyWrite { code: k, value: RELEASE }, c);
        }
        assert forall|i: int| 0 <= i < st2.active.len() implies held2.contains(
            #[trigger] st2.active[i].0,
        ) by {
            lemma_keys_of_index(st.active, i);
        }
        return 0;
    }
    if is_overlap_key(cfg, k) {
        if ev.state == PRESS {
            let r = crate::config::remap_of(cfg, k).unwrap();
            let e = OverlapEntry {
                tap: crate::config::seq_or_empty(r.tap),
                hold: crate::config::seq_or_empty(r.hold),
                triggered: false,
            };
            assert(!keys_of(st.active).contains(k)) by {
                if keys_of(st.active).contains(k) {
                    let i = choose|i: int| 0 <= i < st.active.len() && st.active[i].0 == k;
                    assert(held.contains(st.active[i].0));
                }
            }
            assert(st2.active == st.active.push((k, e)));
            lemma_put_unique(st.active, k, e);
            assert(st.active.push((k, e)).drop_last() =~= st.active);
            assert forall|c: KeyCode| outstanding(st, held, c) + balance(w, c) == #[trigger] outstanding(
                st2,
                held2,
                c,
            ) by {}
            assert forall|i: int| 0 <= i < st2.active.len() implies held2.contains(
                #[trigger] st2.active[i].0,
            ) && is_overlap_key(cfg, st2.active[i].0) by {
                if i < st.active.len() {
                    assert(st2.active[i] == st.active[i]);
                }
            }
            return 0;
        } else {
            match key_index(st.active, k) {
                Some(i) => {
                    let e = st.active[i].1;
                    assert(st.active[i].0 == k);
                    lemma_remove_unique(st.active, i);
                    let n: int = if !e.triggered && e.tap.len() > 0 {
                        e.tap.len() as int
                    } else {
                        0
                    };
                    if e.triggered {
                        if e.hold.len() > 0 {
                            lemma_writes_of_one(Directive::ReleaseMany(e.hold));
                        }
                    } else if e.tap.len() > 0 {
                        lemma_writes_of_two(Directive::PressMany(e.tap), Directive::ReleaseMany(e.tap));
                        assert(w =~= press_all(e.tap) + release_all(e.tap));
                    }
                    assert forall|c: KeyCode| outstanding(st, held, c) + balance(w, c) == #[trigger] outstanding(
                        st2,
                        held2,
                        c,
                    ) by {
                        lemma_hold_sum_remove(st.active, i, c);
                        lemma_press_all(e.hold, c);
                        lemma_press_all(e.tap, c);
                        if !e.triggered && e.tap.len() > 0 {
                            lemma_balance_concat(press_all(e.tap), release_all(e.tap), c);
                        }
                        if e.hold.len() == 0 {
                            assert(occurrences(e.hold, c) == 0);
                        }
                    }
                    assert forall|i2: int| 0 <= i2 < st2.active.len() implies held2.contains(
                        #[trigger] st2.active[i2].0,
                    ) && is_overlap_key(cfg, st2.active[i2].0) by {
                        let j = if i2 < i { i2 } else { i2 + 1 };
                        assert(st2.active[i2] == st.active[j]);
                        assert(st.active[j].0 != k);
                    }
                    return n;
                },
                None => {
                    assert(w =~= seq![KeyWrite { code: k, value: RELEASE }]);
                    assert forall|c: KeyCode| outstanding(st, held, c) + balance(w, c) == #[trigger] outstanding(
                        st2,
                        held2,
                        c,
                    ) by {
                        lemma_balance_single(KeyWrite { code: k, value: RELEASE }, c);
                    }
                    assert forall|i: int| 0 <= i < st2.active.len() implies held2.contains(
                        #[trigger] st2.active[i].0,
                    ) by {
                        lemma_keys_of_index(st.active, i);
                    }
                    return 0;
                },
            }
        }
    }
    if ev.state == PRESS && first_untriggered(st.active) is Some {
        let i = first_untriggered(st.active).unwrap();
        assert(is_first_untriggered(st.active, i));
        let e = st.active[i].1;
        let e2 = OverlapEntry { tap: e.tap, hold: e.hold, triggered: true };
        assert(!keys_of(st.active).contains(k)) by {
            if keys_of(st.active).contains(k) {
                let j = choose|j: int| 0 <= j < st.active.len() && st.active[j].0 == k;
                assert(held.contains(st.active[j].0));
            }
        }
        assert(keys_of(st2.active) =~= keys_of(st.active)) by {
            assert forall|x: KeyCode| keys_of(st2.active).contains(x) implies keys_of(st.active).contains(x) by {
                let j = choose|j: int| 0 <= j < st2.active.len() && st2.active[j].0 == x;
                assert(st.active[j].0 == x);
            }
            assert forall|x: KeyCode| keys_of(st.active).contains(x) implies keys_of(st2.active).contains(x) by {
                let j = choose|j: int| 0 <= j < st.active.len() && st.active[j].0 == x;
                assert(st2.active[j].0 == x);
            }
        }
        if e.hold.len() == 0 {
            lemma_writes_of_one(Directive::Press(k));
        } else {
            lemma_writes_of_two(Directive::PressMany(e.hold), Directive::Press(k));
        }
        let wk = seq![KeyWrite { code: k, value: PRESS }];
        assert(wk.drop_last() =~= Seq::<KeyWrite>::empty());
        assert(w =~= press_all(e.hold) + wk) by {
            if e.hold.len() == 0 {
                assert(press_all(e.hold) =~= Seq::<KeyWrite>::empty());
            }
        }
        assert forall|c: KeyCode| outstanding(st, held, c) + balance(w, c) == #[trigger] outstanding(
            st2,
            held2,
            c,
        ) by {
            lemma_hold_sum_update(st.active, i, (st.active[i].0, e2), c);
            lemma_press_all(e.hold, c);
            lemma_balance_concat(press_all(e.hold), wk, c);
            lemma_balance_single(KeyWrite { code: k, value: PRESS }, c);
        }
        assert(keys_unique(st2.active)) by {
            assert forall|a: int, b: int| 0 <= a < st2.active.len() && 0 <= b < st2.active.len() && a != b
                implies st2.active[a].0 != st2.active[b].0 by {
                assert(st2.active[a].0 == st.active[a].0);
                assert(st2.active[b].0 == st.active[b].0);
            }
        }
        assert forall|j: int| 0 <= j < st2.active.len() implies held2.contains(
            #[trigger] st2.active[j].0,
        ) && is_overlap_key(cfg, st2.active[j].0) by {
            assert(st2.active[j].0 == st.active[j].0);
        }
        return w.len() as int;
    }
    // Passed through unchanged.
    assert(w =~= seq![KeyWrite { code: k, value: ev.state }]);
    if ev.state != PRESS {
        assert(!keys_of(st.active).contains(k)) by {
            if keys_of(st.active).contains(k) {
                let j = choose|j: int| 0 <= j < st.active.len() && st.active[j].0 == k;
                assert(is_overlap_key(cfg, st.active[j].0));
            }
        }
    } else {
        assert(!keys_of(st.active).contains(k)) by {
            if keys_of(st.active).contains(k) {
                let j = choose|j: int| 0 <= j < st.active.len() && st.active[j].0 == k;
                assert(held.contains(st.active[j].0));
            }
        }
    }
    assert forall|c: KeyCode| outstanding(st, held, c) + balance(w, c) == #[trigger] outstanding(
        st2,
        held2,
        c,
    ) by {
        lemma_balance_single(KeyWrite { code: k, value: ev.state }, c);
    }
    assert forall|i: int| 0 <= i < st2.active.len() implies held2.contains(
        #[trigger] st2.active[i].0,
    ) by {
        lemma_keys_of_index(st.active, i);
    }
    if ev.state == PRESS {
        1
    } else {
        0
    }
}

pub(crate) proof fn lemma_hold_sum_nonneg(m: Seq<(KeyCode, OverlapEntry)>, c: KeyCode)
    ensures
        hold_sum(m, c) >= 0,
    decreases m.len(),
{
    if m.len() > 0 {
        lemma_hold_sum_nonneg(m.drop_last(), c);
        lemma_occurrences_nonneg(m.last().1.hold, c);
    }
}

} // verus!
