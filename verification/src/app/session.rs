//! The interactive session: which pool is shown, what the keys do, and which
//! errors are recent.
//!
//! Nothing of a pool is carried from one poll to the next. The session holds
//! navigation state, and the events of the last two minutes.

use crate::model::{
    reports, tree_grade, Ereport, EreportView, PoolHealth, PoolSnapshot, PoolView, ScanState,
    Timestamp,
};
use crate::text::{is_digit, strings};
use crate::ui::{ime_fallback, key_position, PANEL_MAP, PANEL_TREE};
use vstd::arithmetic::div_mod::{lemma_mod_self_0, lemma_small_mod};
use vstd::prelude::*;

verus! {

/// Time window of the error surface map: older events are not shown, for the
/// map answers where errors happen now.
pub const ERROR_WINDOW_SECS: u64 = 120;

/// How many events the map shows at most.
pub const ERROR_CAP: usize = 100;

/// The keys that a session knows.
#[derive(Debug, Clone, Copy, PartialEq, Eq, Structural)]
pub enum Key {
    Char(char),
    Esc,
    Left,
    Right,
    Up,
    Down,
    Tab,
    BackTab,
    Other,
}

/// State of the interactive session.
#[derive(Debug)]
pub struct Session {
    /// The pools that were discovered, in display order.
    pub pools: Vec<String>,
    /// Index of the displayed pool tab.
    pub active: usize,
    /// The selected pool, where it could not be sampled and another one is
    /// displayed.
    pub missing: Option<String>,
    /// The recent ereports, oldest first.
    pub ereports: Vec<Ereport>,
    pub tree_scroll: usize,
    pub map_scroll: usize,
    /// The panel that the arrow keys scroll.
    pub panel_focus: usize,
}

/// What a session holds.
pub struct SessionView {
    pub pools: Seq<Seq<char>>,
    pub active: usize,
    pub missing: Option<Seq<char>>,
    pub ereports: Seq<EreportView>,
    pub tree_scroll: usize,
    pub map_scroll: usize,
    pub panel_focus: usize,
}

impl View for Session {
    type V = SessionView;

    open spec fn view(&self) -> SessionView {
        SessionView {
            pools: strings(self.pools@),
            active: self.active,
            missing: match self.missing {
                Some(name) => Some(name@),
                None => None,
            },
            ereports: reports(self.ereports@),
            tree_scroll: self.tree_scroll,
            map_scroll: self.map_scroll,
            panel_focus: self.panel_focus,
        }
    }
}

/// Where a name stands first in a list.
pub open spec fn first_index(names: Seq<Seq<char>>, name: Seq<char>) -> Option<int>
    decreases names.len(),
{
    if names.len() == 0 {
        None
    } else {
        match first_index(names.drop_last(), name) {
            Some(i) => Some(i),
            None => if names.last() == name {
                Some(names.len() - 1)
            } else {
                None
            },
        }
    }
}

/// The selected pool: the one that is displayed, or the one that another stands in
/// for.
pub open spec fn selected(s: SessionView) -> Option<Seq<char>> {
    if s.missing is Some {
        s.missing
    } else if s.active < s.pools.len() {
        Some(s.pools[s.active as int])
    } else {
        None
    }
}

/// The tab of the selected pool in a new list of pools: it is found again by
/// name, and the first tab stands in where it is gone.
pub open spec fn tab_after(s: SessionView, found: Seq<Seq<char>>) -> int {
    match selected(s) {
        Some(name) => match first_index(found, name) {
            Some(i) => i,
            None => 0,
        },
        None => 0,
    }
}

/// A session whose list of pools has become `found`: the selected pool stays
/// selected by its name.
pub open spec fn discovered(s: SessionView, found: Seq<Seq<char>>) -> SessionView {
    if s.missing is None && found == s.pools {
        s
    } else {
        SessionView {
            pools: found,
            active: tab_after(s, found) as usize,
            missing: None,
            ..s
        }
    }
}

/// Whether an event of time `ts` is recent at the time `now`.
pub open spec fn recent(ts: Timestamp, now: Timestamp) -> bool {
    let expiry = ts.secs + ERROR_WINDOW_SECS;
    expiry > now.secs || (expiry == now.secs && ts.nanos >= now.nanos)
}

/// The recent ones of some ereports, in order.
pub open spec fn recent_ones(es: Seq<EreportView>, now: Timestamp) -> Seq<EreportView>
    decreases es.len(),
{
    if es.len() == 0 {
        Seq::empty()
    } else {
        let before = recent_ones(es.drop_last(), now);
        if recent(es.last().ts, now) {
            before.push(es.last())
        } else {
            before
        }
    }
}

/// The last `n` ereports at most.
pub open spec fn latest(es: Seq<EreportView>, n: int) -> Seq<EreportView> {
    if es.len() > n {
        es.skip(es.len() - n)
    } else {
        es
    }
}

/// A session after some more ereports came in at the time `now`.
pub open spec fn with_ereports(
    s: SessionView,
    more: Seq<EreportView>,
    now: Timestamp,
) -> SessionView {
    SessionView {
        ereports: latest(recent_ones(s.ereports + more, now), ERROR_CAP as int),
        ..s
    }
}

/// A session whose tab is one of `n`: the first one, where it is none of them.
pub open spec fn settled(s: SessionView, n: nat) -> SessionView {
    if s.active >= n {
        SessionView { active: 0, ..s }
    } else {
        s
    }
}

/// The tab to the right of a tab: the first one after the last.
pub open spec fn next_tab(active: int, n: int) -> int {
    if active + 1 < n {
        active + 1
    } else if active + 1 == n || n == 0 {
        0
    } else {
        (active + 1) % n
    }
}

/// A session after a key, with `n` pools on the screen; none where the key
/// ends it. A letter counts by its position on the keyboard.
pub open spec fn after_key(s: SessionView, key: Key, n: nat) -> Option<SessionView> {
    match key {
        Key::Esc => None,
        Key::Right | Key::Tab => Some(
            SessionView {
                active: next_tab(s.active as int, n as int) as usize,
                missing: None,
                ..s
            },
        ),
        Key::Left | Key::BackTab => Some(
            SessionView {
                active: if s.active == 0 {
                    if n == 0 {
                        0
                    } else {
                        (n - 1) as usize
                    }
                } else {
                    (s.active - 1) as usize
                },
                missing: None,
                ..s
            },
        ),
        Key::Up => Some(
            if s.panel_focus == PANEL_TREE {
                SessionView { tree_scroll: one_less(s.tree_scroll), ..s }
            } else {
                SessionView { map_scroll: one_less(s.map_scroll), ..s }
            },
        ),
        Key::Down => Some(
            if s.panel_focus == PANEL_TREE {
                SessionView { tree_scroll: (s.tree_scroll + 1) as usize, ..s }
            } else {
                SessionView { map_scroll: (s.map_scroll + 1) as usize, ..s }
            },
        ),
        Key::Char(c) => {
            let k = key_position(c);
            if k == 'q' {
                None
            } else if k == 'h' {
                Some(SessionView { panel_focus: PANEL_TREE, ..s })
            } else if k == 'l' {
                Some(SessionView { panel_focus: PANEL_MAP, ..s })
            } else if '1' <= k && k <= '9' && (k as u32 - '1' as u32) < n {
                Some(
                    SessionView { active: (k as u32 - '1' as u32) as usize, missing: None, ..s },
                )
            } else {
                Some(s)
            }
        },
        Key::Other => Some(s),
    }
}

/// The selected pool, where it is none of those that were sampled.
pub open spec fn unsampled(s: SessionView, sampled: Seq<Seq<char>>) -> Option<Seq<char>> {
    match selected(s) {
        Some(name) if !sampled.contains(name) => Some(name),
        _ => None,
    }
}

/// A session after a poll that sampled the given pools. From then on the tabs are
/// those pools. The selected one is found among them by its name; where it is none
/// of them, the first one is displayed and the name is remembered.
pub open spec fn refreshed(
    s: SessionView,
    sampled: Seq<Seq<char>>,
    fresh: Seq<EreportView>,
    now: Timestamp,
) -> SessionView {
    let shown = settled(discovered(s, sampled), sampled.len());
    with_ereports(SessionView { missing: unsampled(s, sampled), ..shown }, fresh, now)
}

/// One less, from zero on.
pub open spec fn one_less(n: usize) -> usize {
    if n == 0 {
        0
    } else {
        (n - 1) as usize
    }
}

/// How far the focused panel is scrolled.
pub open spec fn focused_scroll(s: SessionView) -> usize {
    if s.panel_focus == PANEL_TREE {
        s.tree_scroll
    } else {
        s.map_scroll
    }
}

fn same_names(a: &Vec<String>, b: &Vec<String>) -> (r: bool)
    ensures
        r == (strings(a@) == strings(b@)),
{
    if a.len() != b.len() {
        assert(strings(a@).len() != strings(b@).len());
        return false;
    }
    let mut i: usize = 0;
    while i < a.len()
        invariant
            i <= a@.len(),
            a@.len() == b@.len(),
            forall|k: int| 0 <= k < i ==> (#[trigger] a@[k])@ == b@[k]@,
        decreases a@.len() - i,
    {
        if !a[i].eq(&b[i]) {
            assert(strings(a@)[i as int] != strings(b@)[i as int]);
            return false;
        }
        i += 1;
    }
    assert(strings(a@) =~= strings(b@));
    true
}

/// Where a name stands first in a list.
fn position(names: &Vec<String>, name: &String) -> (r: Option<usize>)
    ensures
        match r {
            Some(i) => first_index(strings(names@), name@) == Some(i as int) && i < names@.len(),
            None => first_index(strings(names@), name@) is None,
        },
{
    let ghost all = strings(names@);
    let mut i: usize = 0;
    assert(all.take(0) =~= Seq::<Seq<char>>::empty());
    while i < names.len()
        invariant
            i <= names@.len(),
            all == strings(names@),
            first_index(all.take(i as int), name@) is None,
        decreases names@.len() - i,
    {
        proof {
            assert(all.take(i + 1).drop_last() == all.take(i as int));
            assert(all.take(i + 1).last() == names@[i as int]@);
        }
        if names[i].eq(name) {
            proof {
                lemma_first_index_extends(all, name@, i + 1);
            }
            return Some(i);
        }
        i += 1;
    }
    assert(all.take(all.len() as int) == all);
    None
}

proof fn lemma_first_index_extends(names: Seq<Seq<char>>, name: Seq<char>, n: int)
    requires
        0 <= n <= names.len(),
        first_index(names.take(n), name) is Some,
    ensures
        first_index(names, name) == first_index(names.take(n), name),
    decreases names.len(),
{
    if n < names.len() {
        assert(names.drop_last().take(n) == names.take(n));
        lemma_first_index_extends(names.drop_last(), name, n);
    } else {
        assert(names.take(n) == names);
    }
}

proof fn lemma_first_index(names: Seq<Seq<char>>, name: Seq<char>)
    ensures
        match first_index(names, name) {
            Some(i) => 0 <= i < names.len() && names[i] == name,
            None => forall|i: int| 0 <= i < names.len() ==> #[trigger] names[i] != name,
        },
    decreases names.len(),
{
    if names.len() > 0 {
        let before = names.drop_last();
        lemma_first_index(before, name);
        if first_index(before, name) is None {
            assert forall|i: int| 0 <= i < names.len() && names.last() != name implies
                #[trigger] names[i] != name by {
                if i < before.len() {
                    assert(before[i] == names[i]);
                }
            }
        }
    }
}

impl Session {
    /// A session that has seen nothing yet.
    pub fn new() -> (s: Session)
        ensures
            s@ == (SessionView {
                pools: Seq::empty(),
                active: 0,
                missing: None,
                ereports: Seq::empty(),
                tree_scroll: 0,
                map_scroll: 0,
                panel_focus: PANEL_TREE,
            }),
    {
        let s = Session {
            pools: Vec::new(),
            active: 0,
            missing: None,
            ereports: Vec::new(),
            tree_scroll: 0,
            map_scroll: 0,
            panel_focus: PANEL_TREE,
        };
        assert(s@.pools =~= Seq::<Seq<char>>::empty());
        assert(s@.ereports =~= Seq::<EreportView>::empty());
        s
    }

    /// Takes in the list of pools, which is discovered anew in every poll. The
    /// selected pool is kept by its name, also where the last poll could not sample
    /// it.
    pub fn discover(&mut self, found: Vec<String>)
        ensures
            final(self)@ == discovered(old(self)@, strings(found@)),
    {
        if self.missing.is_none() && same_names(&found, &self.pools) {
            return ;
        }
        let mut active: usize = 0;
        if let Some(name) = self.selected_pool() {
            if let Some(i) = position(&found, &name) {
                active = i;
            }
        }
        self.active = active;
        self.missing = None;
        self.pools = found;
    }

    /// The name of the selected pool.
    pub fn selected_pool(&self) -> (r: Option<String>)
        ensures
            match r {
                Some(name) => selected(self@) == Some(name@),
                None => selected(self@) is None,
            },
    {
        if let Some(name) = &self.missing {
            return Some(name.clone());
        }
        if self.active < self.pools.len() {
            assert(strings(self.pools@)[self.active as int] == self.pools@[self.active as int]@);
            Some(self.pools[self.active].clone())
        } else {
            None
        }
    }

    /// Makes sure that the displayed tab is one of `n`.
    pub fn settle(&mut self, n: usize)
        ensures
            final(self)@ == settled(old(self)@, n as nat),
    {
        if self.active >= n {
            self.active = 0;
        }
    }

    /// Takes in fresh ereports and forgets those that are no longer recent, and
    /// the oldest beyond a hundred.
    pub fn note_ereports(&mut self, fresh: Vec<Ereport>, now: Timestamp)
        ensures
            final(self)@ == with_ereports(old(self)@, reports(fresh@), now),
    {
        let ghost all = reports(self.ereports@) + reports(fresh@);
        let mut held: Vec<Ereport> = Vec::new();
        std::mem::swap(&mut held, &mut self.ereports);
        let mut kept: Vec<Ereport> = Vec::new();
        proof {
            assert(reports(kept@) =~= Seq::<EreportView>::empty());
            assert(all.take(0) =~= Seq::<EreportView>::empty());
            assert(reports(held@) == all.take(held@.len() as int));
            assert(reports(fresh@) == all.skip(held@.len() as int));
        }
        keep_recent(&mut kept, held, now, Ghost(all), Ghost(0));
        keep_recent(&mut kept, fresh, now, Ghost(all), Ghost(held@.len() as int));
        assert(all.take(all.len() as int) == all);
        let ghost wanted = latest(recent_ones(all, now), ERROR_CAP as int);
        let ghost whole = reports(kept@);
        while kept.len() > ERROR_CAP
            invariant
                wanted == latest(whole, ERROR_CAP as int),
                kept@.len() <= whole.len(),
                reports(kept@) == whole.skip(whole.len() - kept@.len()),
                kept@.len() >= ERROR_CAP || kept@.len() == whole.len(),
            decreases kept@.len(),
        {
            let ghost before = kept@;
            let _ = kept.remove(0);
            assert(reports(kept@) == reports(before).skip(1));
            assert(whole.skip(whole.len() - before.len()).skip(1) == whole.skip(
                whole.len() - kept@.len(),
            ));
        }
        self.ereports = kept;
        assert(self@.ereports == wanted);
    }

    /// Takes in what one poll gave: the snapshots, one at least, and the fresh
    /// ereports. The tabs are the pools that were sampled, so that the displayed
    /// snapshot is that of the selected pool wherever it has one. Where it has none,
    /// it stays selected all the same.
    pub fn refresh(
        &mut self,
        snaps: &Vec<PoolSnapshot>,
        fresh: Vec<Ereport>,
        now: Timestamp,
    )
        requires
            snaps@.len() > 0,
        ensures
            final(self)@ == refreshed(old(self)@, names(snaps@), reports(fresh@), now),
            final(self).active < snaps@.len(),
            selected(old(self)@) matches Some(name) ==> {
                &&& names(snaps@).contains(name) ==> snaps@[final(self).active as int]@.name
                    == name
                &&& !names(snaps@).contains(name) ==> final(self).active == 0
                &&& selected(final(self)@) == Some(name)
            },
    {
        let n: usize = snaps.len();
        let sampled = names_of(snaps);
        let picked = self.selected_pool();
        let mut missing: Option<String> = None;
        proof {
            if let Some(name) = selected(self@) {
                lemma_first_index(names(snaps@), name);
                law_selection_follows_the_name(self@, names(snaps@));
            }
        }
        if let Some(name) = picked {
            if position(&sampled, &name).is_none() {
                missing = Some(name);
            }
        }
        self.discover(sampled);
        self.settle(n);
        self.missing = missing;
        self.note_ereports(fresh, now);
    }

    /// Does what a key does, with `n` pools on the screen. Says whether the key
    /// ends the session, in which case nothing has changed.
    pub fn press(&mut self, key: Key, n: usize) -> (quit: bool)
        requires
            key is Right || key is Tab ==> old(self).active < usize::MAX,
            key is Down ==> focused_scroll(old(self)@) < usize::MAX,
        ensures
            match after_key(old(self)@, key, n as nat) {
                Some(s) => !quit && final(self)@ == s,
                None => quit && final(self)@ == old(self)@,
            },
    {
        match key {
            Key::Esc => {
                return true;
            },
            Key::Right | Key::Tab => {
                let m: usize = if n == 0 {
                    1
                } else {
                    n
                };
                proof {
                    if self.active + 1 < m {
                        lemma_small_mod((self.active + 1) as nat, m as nat);
                    } else if self.active + 1 == m {
                        lemma_mod_self_0(m as int);
                    }
                }
                self.active = (self.active + 1) % m;
                self.missing = None;
            },
            Key::Left | Key::BackTab => {
                self.active = if self.active == 0 {
                    if n == 0 {
                        0
                    } else {
                        n - 1
                    }
                } else {
                    self.active - 1
                };
                self.missing = None;
            },
            Key::Up => {
                if self.panel_focus == PANEL_TREE {
                    if self.tree_scroll > 0 {
                        self.tree_scroll -= 1;
                    }
                } else if self.map_scroll > 0 {
                    self.map_scroll -= 1;
                }
            },
            Key::Down => {
                if self.panel_focus == PANEL_TREE {
                    self.tree_scroll += 1;
                } else {
                    self.map_scroll += 1;
                }
            },
            Key::Char(c) => {
                let k = ime_fallback(c);
                if k == 'q' {
                    return true;
                } else if k == 'h' {
                    self.panel_focus = PANEL_TREE;
                } else if k == 'l' {
                    self.panel_focus = PANEL_MAP;
                } else if '1' <= k && k <= '9' {
                    let idx: usize = (k as u32 - '1' as u32) as usize;
                    if idx < n {
                        self.active = idx;
                        self.missing = None;
                    }
                }
            },
            Key::Other => {},
        }
        false
    }
}

/// How far the focused panel is scrolled.
pub fn focus_scroll(s: &Session) -> (r: usize)
    ensures
        r == focused_scroll(s@),
{
    if s.panel_focus == PANEL_TREE {
        s.tree_scroll
    } else {
        s.map_scroll
    }
}

/// Appends the recent ones of some ereports, which stand in `all` from index
/// `from` on.
fn keep_recent(
    kept: &mut Vec<Ereport>,
    es: Vec<Ereport>,
    now: Timestamp,
    Ghost(all): Ghost<Seq<EreportView>>,
    Ghost(from): Ghost<int>,
)
    requires
        0 <= from,
        from + es@.len() <= all.len(),
        reports(es@) == all.subrange(from, from + es@.len()),
        reports(old(kept)@) == recent_ones(all.take(from), now),
    ensures
        reports(final(kept)@) == recent_ones(all.take(from + es@.len()), now),
{
    let ghost given = es@;
    let mut rest = es;
    let ghost mut i: int = 0;
    while rest.len() > 0
        invariant
            0 <= from,
            0 <= i <= given.len(),
            from + given.len() <= all.len(),
            reports(given) == all.subrange(from, from + given.len()),
            rest@ == given.skip(i),
            reports(kept@) == recent_ones(all.take(from + i), now),
        decreases rest@.len(),
    {
        let e = rest.remove(0);
        proof {
            assert(e == given[i]);
            assert(reports(given)[i] == e@);
            assert(all[from + i] == e@);
            assert(all.take(from + i + 1).drop_last() == all.take(from + i));
            assert(all.take(from + i + 1).last() == e@);
            assert(rest@ == given.skip(i + 1));
            i = i + 1;
        }
        let ghost before = kept@;
        if is_recent(e.ts, now) {
            kept.push(e);
            assert(reports(kept@) == reports(before).push(e@));
        }
    }
}

fn is_recent(ts: Timestamp, now: Timestamp) -> (r: bool)
    ensures
        r == recent(ts, now),
{
    if ts.secs > i128::MAX - ERROR_WINDOW_SECS as i128 {
        return true;
    }
    let expiry: i128 = ts.secs + ERROR_WINDOW_SECS as i128;
    expiry > now.secs || (expiry == now.secs && ts.nanos >= now.nanos)
}

/// The names of some snapshots.
pub open spec fn names(snaps: Seq<PoolSnapshot>) -> Seq<Seq<char>> {
    Seq::new(snaps.len(), |i: int| snaps[i]@.name)
}

/// Whether a snapshot shows a running scan.
pub open spec fn is_scanning(s: PoolView) -> bool {
    s.scan matches Some(scan) && scan.state is Scanning
}

/// The names of some snapshots.
pub fn names_of(snaps: &Vec<PoolSnapshot>) -> (r: Vec<String>)
    ensures
        strings(r@) == names(snaps@),
{
    let mut r: Vec<String> = Vec::new();
    let mut i: usize = 0;
    while i < snaps.len()
        invariant
            i <= snaps@.len(),
            r@.len() == i,
            forall|k: int| 0 <= k < i ==> (#[trigger] r@[k])@ == snaps@[k]@.name,
        decreases snaps@.len() - i,
    {
        r.push(snaps[i].name.clone());
        i += 1;
    }
    assert(strings(r@) =~= names(snaps@));
    r
}

/// Which of some snapshots show a running scan.
pub fn scanning_flags(snaps: &Vec<PoolSnapshot>) -> (r: Vec<bool>)
    ensures
        r@ == Seq::new(snaps@.len(), |i: int| is_scanning(snaps@[i]@)),
{
    let mut r: Vec<bool> = Vec::new();
    let mut i: usize = 0;
    while i < snaps.len()
        invariant
            i <= snaps@.len(),
            r@.len() == i,
            forall|k: int| 0 <= k < i ==> #[trigger] r@[k] == is_scanning(snaps@[k]@),
        decreases snaps@.len() - i,
    {
        let flag: bool = match &snaps[i].scan {
            Some(scan) => scan.state == ScanState::Scanning,
            None => false,
        };
        r.push(flag);
        i += 1;
    }
    r
}

/// The health grades of some snapshots. They come from these snapshots alone,
/// so a pool that recovers shows it in the next poll.
pub fn health_grades(snaps: &Vec<PoolSnapshot>) -> (r: Vec<PoolHealth>)
    ensures
        r@ == Seq::new(snaps@.len(), |i: int| tree_grade(snaps@[i]@.root)),
{
    let mut r: Vec<PoolHealth> = Vec::new();
    let mut i: usize = 0;
    while i < snaps.len()
        invariant
            i <= snaps@.len(),
            r@.len() == i,
            forall|k: int| 0 <= k < i ==> #[trigger] r@[k] == tree_grade(snaps@[k]@.root),
        decreases snaps@.len() - i,
    {
        r.push(snaps[i].health());
        i += 1;
    }
    r
}

/// The selected pool stays selected as long as it exists, wherever it moves in
/// the list; otherwise the first tab is shown.
pub proof fn law_selection_follows_the_name(s: SessionView, found: Seq<Seq<char>>)
    requires
        selected(s) is Some,
        found.len() <= usize::MAX,
    ensures
        ({
            let t = discovered(s, found);
            let name = selected(s)->Some_0;
            &&& t.pools == found
            &&& t.missing is None
            &&& found.contains(name) ==> t.active < found.len() && found[t.active as int] == name
                && selected(t) == Some(name)
            &&& !found.contains(name) ==> t.active == 0
        }),
{
    let name = selected(s)->Some_0;
    lemma_first_index(found, name);
    if s.missing is None && found == s.pools {
        assert(found[s.active as int] == name);
    }
}

/// Every poll shows the selected pool, whatever other pools come, go or cannot be
/// sampled: the displayed snapshot is that of the pool that was selected, where it
/// has one, and the first snapshot otherwise. Either way the pool stays selected.
pub proof fn law_selected_pool_is_shown(
    s: SessionView,
    found: Seq<Seq<char>>,
    sampled: Seq<Seq<char>>,
    fresh: Seq<EreportView>,
    now: Timestamp,
)
    requires
        selected(s) is Some,
        found.contains(selected(s)->Some_0),
        found.len() <= usize::MAX,
        0 < sampled.len() <= usize::MAX,
    ensures
        ({
            let t = refreshed(discovered(s, found), sampled, fresh, now);
            let name = selected(s)->Some_0;
            &&& t.pools == sampled
            &&& t.active < sampled.len()
            &&& sampled.contains(name) ==> sampled[t.active as int] == name
            &&& !sampled.contains(name) ==> t.active == 0
            &&& selected(t) == Some(name)
        }),
{
    law_selection_follows_the_name(s, found);
    law_selection_follows_the_name(discovered(s, found), sampled);
}

/// One step of a session: a poll, or a key with the tabs on the screen.
pub enum Step {
    Poll {
        found: Seq<Seq<char>>,
        sampled: Seq<Seq<char>>,
        fresh: Seq<EreportView>,
        now: Timestamp,
    },
    Press(Key),
}

/// A session after a step; unchanged by a key that ends it.
pub open spec fn after_step(s: SessionView, step: Step) -> SessionView {
    match step {
        Step::Poll { found, sampled, fresh, now } => refreshed(
            discovered(s, found),
            sampled,
            fresh,
            now,
        ),
        Step::Press(key) => match after_key(s, key, s.pools.len()) {
            Some(t) => t,
            None => s,
        },
    }
}

/// A session after some steps.
pub open spec fn after_steps(s: SessionView, steps: Seq<Step>) -> SessionView
    decreases steps.len(),
{
    if steps.len() == 0 {
        s
    } else {
        after_step(after_steps(s, steps.drop_last()), steps.last())
    }
}

/// Whether a key picks a pool, with `n` of them on the screen.
pub open spec fn picks_pool(key: Key, n: nat) -> bool {
    match key {
        Key::Right | Key::Tab | Key::Left | Key::BackTab => true,
        Key::Char(c) => '1' <= key_position(c) && key_position(c) <= '9' && (key_position(c) as u32
            - '1' as u32) < n,
        _ => false,
    }
}

/// Whether a step leaves the pool `name` alone, with `n` pools on the screen: a poll
/// that discovers it and has a snapshot to show, or a key that picks no pool.
pub open spec fn leaves_alone(step: Step, name: Seq<char>, n: nat) -> bool {
    match step {
        Step::Poll { found, sampled, .. } => {
            &&& found.contains(name)
            &&& found.len() <= usize::MAX
            &&& 0 < sampled.len() <= usize::MAX
        },
        Step::Press(key) => !picks_pool(key, n),
    }
}

/// A selected pool is shown again at the first poll that samples it, however many
/// polls could not, as long as it exists and no key picks a pool in between.
pub proof fn law_selected_pool_comes_back(
    s: SessionView,
    steps: Seq<Step>,
    found: Seq<Seq<char>>,
    sampled: Seq<Seq<char>>,
    fresh: Seq<EreportView>,
    now: Timestamp,
)
    requires
        selected(s) is Some,
        s.pools.len() <= usize::MAX,
        forall|i: int|
            0 <= i < steps.len() ==> leaves_alone(
                #[trigger] steps[i],
                selected(s)->Some_0,
                after_steps(s, steps.take(i)).pools.len(),
            ),
        found.contains(selected(s)->Some_0),
        found.len() <= usize::MAX,
        sampled.contains(selected(s)->Some_0),
        sampled.len() <= usize::MAX,
    ensures
        ({
            let t = refreshed(discovered(after_steps(s, steps), found), sampled, fresh, now);
            t.active < sampled.len() && Some(sampled[t.active as int]) == selected(s)
        }),
{
    lemma_steps_keep_selection(s, steps);
    law_selected_pool_is_shown(after_steps(s, steps), found, sampled, fresh, now);
}

proof fn lemma_steps_keep_selection(s: SessionView, steps: Seq<Step>)
    requires
        selected(s) is Some,
        s.pools.len() <= usize::MAX,
        forall|i: int|
            0 <= i < steps.len() ==> leaves_alone(
                #[trigger] steps[i],
                selected(s)->Some_0,
                after_steps(s, steps.take(i)).pools.len(),
            ),
    ensures
        selected(after_steps(s, steps)) == selected(s),
        after_steps(s, steps).pools.len() <= usize::MAX,
    decreases steps.len(),
{
    if steps.len() > 0 {
        let before = steps.drop_last();
        assert forall|i: int| 0 <= i < before.len() implies leaves_alone(
            #[trigger] before[i],
            selected(s)->Some_0,
            after_steps(s, before.take(i)).pools.len(),
        ) by {
            assert(before[i] == steps[i]);
            assert(before.take(i) == steps.take(i));
        }
        lemma_steps_keep_selection(s, before);
        let t = after_steps(s, before);
        let step = steps[steps.len() - 1];
        assert(steps.take(steps.len() - 1) == before);
        assert(leaves_alone(step, selected(s)->Some_0, t.pools.len()));
        match step {
            Step::Poll { found, sampled, fresh, now } => {
                law_selected_pool_is_shown(t, found, sampled, fresh, now);
            },
            Step::Press(key) => {
                law_only_picks_change_the_selection(t, key, t.pools.len());
            },
        }
    }
}

/// A key that picks no pool leaves the selection as it is, and one that picks a pool
/// selects the one that it displays.
pub proof fn law_only_picks_change_the_selection(s: SessionView, key: Key, n: nat)
    ensures
        after_key(s, key, n) matches Some(t) ==> t.pools == s.pools && if picks_pool(key, n) {
            t.missing is None
        } else {
            selected(t) == selected(s) && t.active == s.active
        },
{
}

/// No key leads to a pool that is not on the screen.
pub proof fn law_keys_stay_on_screen(s: SessionView, key: Key, n: nat)
    requires
        s.active < n <= usize::MAX,
    ensures
        after_key(s, key, n) matches Some(t) ==> t.active < n,
{
}

/// Going right and then left, or left and then right, comes back to the pool that
/// was displayed, and nothing else has changed but that it is picked now.
pub proof fn law_tabs_go_both_ways(s: SessionView, n: nat)
    requires
        s.active < n <= usize::MAX,
    ensures
        after_key(after_key(s, Key::Right, n)->Some_0, Key::Left, n) == Some(
            SessionView { missing: None, ..s },
        ),
        after_key(after_key(s, Key::Left, n)->Some_0, Key::Right, n) == Some(
            SessionView { missing: None, ..s },
        ),
        after_key(s, Key::Tab, n) == after_key(s, Key::Right, n),
        after_key(s, Key::BackTab, n) == after_key(s, Key::Left, n),
{
}

/// Hotkeys work with a Korean input method on: a letter does what the key does
/// that it stands on.
pub proof fn law_hotkeys_go_by_position(s: SessionView, c: char, n: nat)
    ensures
        after_key(s, Key::Char(c), n) == after_key(s, Key::Char(key_position(c)), n),
{
    crate::ui::law_projection_reaches_keys(c);
}

/// Digits out of range are inert, and so is zero.
pub proof fn law_unused_digits_are_inert(s: SessionView, c: char, n: nat)
    requires
        is_digit(c),
        c == '0' || (c as u32 - '1' as u32) >= n,
    ensures
        after_key(s, Key::Char(c), n) == Some(s),
{
}

/// The arrow keys scroll the focused panel alone, and going down and up again
/// comes back.
pub proof fn law_scrolling_is_independent(s: SessionView, n: nat)
    requires
        focused_scroll(s) < usize::MAX,
    ensures
        ({
            let down = after_key(s, Key::Down, n)->Some_0;
            &&& focused_scroll(down) == focused_scroll(s) + 1
            &&& s.panel_focus == PANEL_TREE ==> down.map_scroll == s.map_scroll
            &&& s.panel_focus != PANEL_TREE ==> down.tree_scroll == s.tree_scroll
            &&& after_key(down, Key::Up, n) == Some(s)
            &&& focused_scroll(s) == 0 ==> after_key(s, Key::Up, n) == Some(s)
        }),
{
}

/// Only recent events stay, a hundred at most, and none that is recent is lost
/// while there is room.
pub proof fn law_window_slides(s: SessionView, more: Seq<EreportView>, now: Timestamp)
    ensures
        with_ereports(s, more, now).ereports.len() <= ERROR_CAP,
        forall|i: int|
            0 <= i < with_ereports(s, more, now).ereports.len() ==> recent(
                (#[trigger] with_ereports(s, more, now).ereports[i]).ts,
                now,
            ),
        forall|e: EreportView|
            recent(e.ts, now) && #[trigger] (s.ereports + more).contains(e) && recent_ones(
                s.ereports + more,
                now,
            ).len() <= ERROR_CAP ==> with_ereports(s, more, now).ereports.contains(e),
{
    let all = s.ereports + more;
    lemma_recent_ones(all, now);
    let r = recent_ones(all, now);
    let l = latest(r, ERROR_CAP as int);
    assert forall|i: int| 0 <= i < l.len() implies recent((#[trigger] l[i]).ts, now) by {
        if r.len() > ERROR_CAP {
            assert(l[i] == r[r.len() - ERROR_CAP + i]);
        }
    }
}

proof fn lemma_recent_ones(es: Seq<EreportView>, now: Timestamp)
    ensures
        forall|i: int|
            0 <= i < recent_ones(es, now).len() ==> recent(
                (#[trigger] recent_ones(es, now)[i]).ts,
                now,
            ),
        forall|e: EreportView|
            recent(e.ts, now) && #[trigger] es.contains(e) ==> recent_ones(es, now).contains(e),
    decreases es.len(),
{
    if es.len() > 0 {
        let before = es.drop_last();
        lemma_recent_ones(before, now);
        let r = recent_ones(es, now);
        let q = recent_ones(before, now);
        assert forall|e: EreportView| recent(e.ts, now) && #[trigger] es.contains(e) implies
            r.contains(e) by {
            let k = es.index_of(e);
            if e == es.last() {
                assert(r[r.len() - 1] == e);
            } else {
                assert(before[k] == e);
                assert(before.contains(e));
                let j = q.index_of(e);
                assert(q[j] == e);
                assert(r[j] == e);
            }
        }
    }
}

} // verus!
