//! What keys and polls do to a session, one by one.

use crate::app::session::{
    after_key, discovered, first_index, is_scanning, recent, recent_ones, refreshed, selected,
    with_ereports, Key, SessionView,
};
use crate::model::{since_epoch, EreportView, PoolView, ScanState, Timestamp, SECOND_NANOS};
use crate::ui::key_position;
use vstd::prelude::*;

verus! {

/// A session ends with the escape key and with the key `q`, and with nothing else.
pub proof fn law_quit_keys(s: SessionView, key: Key, n: nat)
    ensures
        after_key(s, key, n) is None <==> key is Esc || (key matches Key::Char(c) && key_position(
            c,
        ) == 'q'),
{
}

/// Right goes to the next pool and from the last to the first; left goes to the one
/// before and from the first to the last. Nothing else of the session changes.
pub proof fn law_arrows_walk_the_tabs(s: SessionView, n: nat)
    requires
        s.active < n <= usize::MAX,
    ensures
        after_key(s, Key::Right, n) == Some(
            SessionView {
                active: if s.active + 1 == n {
                    0
                } else {
                    (s.active + 1) as usize
                },
                missing: None,
                ..s
            },
        ),
        after_key(s, Key::Left, n) == Some(
            SessionView {
                active: if s.active == 0 {
                    (n - 1) as usize
                } else {
                    (s.active - 1) as usize
                },
                missing: None,
                ..s
            },
        ),
{
}

/// A digit shows the pool of that number, where there is one.
pub proof fn law_digits_pick_pools(s: SessionView, d: nat, n: nat)
    requires
        1 <= d <= 9,
        d <= n,
    ensures
        after_key(s, Key::Char((48 + d) as char), n) == Some(
            SessionView { active: (d - 1) as usize, missing: None, ..s },
        ),
{
    let c = (48 + d) as char;
    crate::ui::law_projection_reaches_keys(c);
}

/// The keys `h` and `l` move the focus to the tree and to the map. The arrow keys up
/// and down scroll the panel that has it, and stop at its top.
pub proof fn law_focus_and_scroll(s: SessionView, n: nat)
    requires
        s.tree_scroll < usize::MAX,
        s.map_scroll < usize::MAX,
    ensures
        after_key(s, Key::Char('h'), n) == Some(SessionView { panel_focus: 0, ..s }),
        after_key(s, Key::Char('l'), n) == Some(SessionView { panel_focus: 1, ..s }),
        s.panel_focus == 0 ==> after_key(s, Key::Down, n) == Some(
            SessionView { tree_scroll: (s.tree_scroll + 1) as usize, ..s },
        ),
        s.panel_focus == 1 ==> after_key(s, Key::Down, n) == Some(
            SessionView { map_scroll: (s.map_scroll + 1) as usize, ..s },
        ),
        s.panel_focus == 0 && s.tree_scroll > 0 ==> after_key(s, Key::Up, n) == Some(
            SessionView { tree_scroll: (s.tree_scroll - 1) as usize, ..s },
        ),
        s.panel_focus == 1 && s.map_scroll > 0 ==> after_key(s, Key::Up, n) == Some(
            SessionView { map_scroll: (s.map_scroll - 1) as usize, ..s },
        ),
        s.panel_focus == 0 && s.tree_scroll == 0 ==> after_key(s, Key::Up, n) == Some(s),
        s.panel_focus == 1 && s.map_scroll == 0 ==> after_key(s, Key::Up, n) == Some(s),
{
}

/// Any other key does nothing.
pub proof fn law_other_keys_are_inert(s: SessionView, c: char, n: nat)
    requires
        !('1' <= key_position(c) && key_position(c) <= '9'),
        key_position(c) != 'q',
        key_position(c) != 'h',
        key_position(c) != 'l',
    ensures
        after_key(s, Key::Char(c), n) == Some(s),
        after_key(s, Key::Other, n) == Some(s),
{
}

/// An event is recent for two minutes to the nanosecond, the end included.
pub proof fn law_events_are_recent_for_two_minutes(ts: Timestamp, now: Timestamp)
    requires
        ts.nanos < SECOND_NANOS,
        now.nanos < SECOND_NANOS,
    ensures
        recent(ts, now) <==> since_epoch(now) - since_epoch(ts) <= 120 * 1_000_000_000,
{
    assert(since_epoch(now) - since_epoch(ts) == (now.secs - ts.secs) * 1_000_000_000 + (now.nanos
        - ts.nanos)) by (nonlinear_arith)
        requires
            since_epoch(now) == now.secs * 1_000_000_000 + now.nanos,
            since_epoch(ts) == ts.secs * 1_000_000_000 + ts.nanos,
    ;
}

proof fn lemma_recent_filter(es: Seq<EreportView>, now: Timestamp)
    ensures
        recent_ones(es, now) == es.filter(|e: EreportView| recent(e.ts, now)),
    decreases es.len(),
{
    reveal(Seq::filter);
    if es.len() > 0 {
        lemma_recent_filter(es.drop_last(), now);
    }
}

/// After a poll the events are the recent ones of those before and the new ones, in
/// order, and of these the last hundred. Nothing else of the session changes.
pub proof fn law_events_after_a_poll(s: SessionView, more: Seq<EreportView>, now: Timestamp)
    ensures
        ({
            let kept = (s.ereports + more).filter(|e: EreportView| recent(e.ts, now));
            let t = with_ereports(s, more, now);
            &&& kept.len() <= 100 ==> t.ereports == kept
            &&& kept.len() > 100 ==> t.ereports == kept.skip(kept.len() - 100)
            &&& t == (SessionView { ereports: t.ereports, ..s })
        }),
{
    lemma_recent_filter(s.ereports + more, now);
}

/// A poll changes neither the focus nor how far the panels are scrolled.
pub proof fn law_polls_keep_the_view(
    s: SessionView,
    found: Seq<Seq<char>>,
    sampled: Seq<Seq<char>>,
    fresh: Seq<EreportView>,
    now: Timestamp,
)
    ensures
        ({
            let t = refreshed(discovered(s, found), sampled, fresh, now);
            &&& t.tree_scroll == s.tree_scroll
            &&& t.map_scroll == s.map_scroll
            &&& t.panel_focus == s.panel_focus
            &&& t.pools == sampled
            &&& t.ereports == with_ereports(s, fresh, now).ereports
        }),
{
}

/// A session that has selected nothing shows the first pool.
pub proof fn law_first_pool_is_shown_first(
    s: SessionView,
    sampled: Seq<Seq<char>>,
    fresh: Seq<EreportView>,
    now: Timestamp,
)
    requires
        selected(s) is None,
        sampled.len() > 0,
        s.pools != sampled,
    ensures
        refreshed(s, sampled, fresh, now).active == 0,
        refreshed(s, sampled, fresh, now).missing is None,
        selected(refreshed(s, sampled, fresh, now)) == Some(sampled[0]),
{
}

proof fn lemma_first_index_least(names: Seq<Seq<char>>, name: Seq<char>)
    ensures
        first_index(names, name) matches Some(i) ==> 0 <= i < names.len() && names[i] == name
            && forall|j: int| 0 <= j < i ==> #[trigger] names[j] != name,
        first_index(names, name) is None ==> !names.contains(name),
    decreases names.len(),
{
    if names.len() > 0 {
        let d = names.drop_last();
        lemma_first_index_least(d, name);
        match first_index(d, name) {
            Some(i) => {
                assert forall|j: int| 0 <= j < i implies #[trigger] names[j] != name by {
                    assert(d[j] == names[j]);
                }
            },
            None => {
                assert forall|j: int| 0 <= j < d.len() implies #[trigger] names[j] != name by {
                    assert(d[j] == names[j]);
                    assert(d.contains(d[j]));
                }
            },
        }
    }
}

/// A pool is found again at the first place where its name stands.
pub proof fn law_names_are_found_first(names: Seq<Seq<char>>, name: Seq<char>)
    ensures
        first_index(names, name) is Some <==> names.contains(name),
        first_index(names, name) matches Some(i) ==> 0 <= i < names.len() && names[i] == name
            && forall|j: int| 0 <= j < i ==> #[trigger] names[j] != name,
{
    lemma_first_index_least(names, name);
    if let Some(i) = first_index(names, name) {
        assert(names.contains(names[i]));
    }
}

/// A tab shows a scan exactly while one is running.
pub proof fn law_scanning_is_a_running_scan(s: PoolView)
    ensures
        is_scanning(s) <==> s.scan is Some && s.scan->Some_0.state == ScanState::Scanning,
{
}

/// A tab that is not on the screen is left by the same steps, round the tabs that
/// are; without tabs the first one stays.
pub proof fn law_arrows_wrap_around(s: SessionView, n: nat)
    requires
        n <= usize::MAX,
        s.active < usize::MAX,
    ensures
        n > 0 ==> (after_key(s, Key::Right, n) matches Some(t) && t.active == (s.active + 1) % (
        n as int)),
        n == 0 ==> (after_key(s, Key::Right, n) matches Some(t) && t.active == 0),
        s.active > 0 ==> (after_key(s, Key::Left, n) matches Some(t) && t.active == s.active - 1),
        s.active == 0 && n == 0 ==> (after_key(s, Key::Left, n) matches Some(t) && t.active == 0),
{
    if n > 0 {
        let a = s.active as int + 1;
        let m = n as int;
        if a < m {
            vstd::arithmetic::div_mod::lemma_small_mod(a as nat, n);
        } else if a == m {
            vstd::arithmetic::div_mod::lemma_mod_self_0(m);
        }
        vstd::arithmetic::div_mod::lemma_mod_bound(a, m);
    }
}

} // verus!
