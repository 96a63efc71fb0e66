//! Shaping a tab after a preset: as many panes as it wants, where it wants them.

use crate::handoff::{rebuild_hnode, rebuilt, HNode};
use crate::layout::Layout;
use crate::proto::ViewState;
use crate::seqs::lemma_first_where;
use crate::state::{
    killed, spawned, tab_is, Bars, Session, SessionError, SessionErrorView, SessionView, TabView,
};
use crate::text::owned;
use vstd::prelude::*;

verus! {

/// A session with a pane taken out of a tab's layout.
pub open spec fn with_less(s: SessionView, tab: u64, pane: u64) -> SessionView {
    let k = s.tab_at(tab);
    if k < s.tabs.len() {
        SessionView {
            tabs: s.tabs.update(
                k,
                TabView {
                    layout: Layout {
                        tree: match s.tabs[k].layout.tree {
                            Some(n) => n.without(pane),
                            None => None,
                        },
                    },
                    ..s.tabs[k]
                },
            ),
            ..s
        }
    } else {
        s
    }
}

/// A session whose tab has no more panes than wanted: the last ones go.
pub open spec fn shrunk(s: SessionView, tab: u64, have: Seq<u64>, want: nat) -> SessionView
    decreases have.len(),
{
    if have.len() <= want {
        s
    } else {
        shrunk(
            with_less(killed(s, have.last()), tab, have.last()),
            tab,
            have.drop_last(),
            want,
        )
    }
}

/// The panes that are left.
pub open spec fn kept(have: Seq<u64>, want: nat) -> Seq<u64> {
    if have.len() <= want {
        have
    } else {
        have.take(want as int)
    }
}

/// A session with `n` more panes, in a tab but in no layout.
pub open spec fn grown(
    s: SessionView,
    space: u64,
    tab: u64,
    shell: Seq<char>,
    cwd: Seq<char>,
    n: nat,
) -> SessionView
    decreases n,
{
    if n == 0 {
        s
    } else {
        spawned(grown(s, space, tab, shell, cwd, (n - 1) as nat), space, tab, shell, cwd)
    }
}

/// The panes there are then: those that were kept, and the new ones behind them.
pub open spec fn manned(have: Seq<u64>, first: u64, n: nat) -> Seq<u64> {
    have + Seq::new(n, |i: int| (first + i) as u64)
}

/// Ids that stand for themselves.
pub open spec fn somes(s: Seq<u64>) -> Seq<Option<u64>> {
    Seq::new(s.len(), |i: int| Some(s[i]))
}

/// A preset: how many panes it wants, and where it wants them, by number.
#[derive(Debug)]
pub struct Preset {
    pub want: usize,
    pub tree: HNode,
}

/// The space of a tab, and where that is.
pub open spec fn home(s: SessionView, tab: u64) -> (u64, Seq<char>) {
    let space = s.tabs[s.tab_at(tab)].space;
    (
        space,
        if s.has_space(space) {
            s.spaces[s.space_at(space)].cwd
        } else {
            "."@
        },
    )
}

/// What shaping the tab in front after a preset does.
pub open spec fn shaped(
    s: SessionView,
    bars: Bars,
    shell: Seq<char>,
    name: Seq<char>,
    preset: Option<Preset>,
) -> (SessionView, Option<SessionErrorView>) {
    match (preset, s.front_tab()) {
        (None, _) => (s, Some(SessionErrorView::UnknownLayout(name))),
        (Some(_), None) => (s, Some(SessionErrorView::NoTab)),
        (Some(p), Some(tab)) => {
            let want = p.want as nat;
            let have = kept(s.in_front(), want);
            let t = shrunk(s, tab, s.in_front(), want);
            if have.len() < want && !t.has_tab(tab) {
                (t, Some(SessionErrorView::NoTab))
            } else {
                let (space, cwd) = home(t, tab);
                let n = (want - have.len()) as nat;
                let u = grown(t, space, tab, shell, cwd, n);
                let all = manned(have, t.next_pane, n);
                match rebuilt(p.tree, somes(all)) {
                    Err(_) => (u, Some(SessionErrorView::BadLayout(name))),
                    Ok(tree) => {
                        let k = u.tab_at(tab);
                        let v = if k < u.tabs.len() {
                            SessionView {
                                tabs: u.tabs.update(
                                    k,
                                    TabView {
                                        layout: Layout { tree: Some(tree) },
                                        focused_pane: if all.len() > 0 {
                                            Some(all[0])
                                        } else {
                                            None
                                        },
                                        ..u.tabs[k]
                                    },
                                ),
                                ..u
                            }
                        } else {
                            u
                        };
                        (
                            (SessionView {
                                view: ViewState { zoom: None, ..v.view },
                                ..v
                            }).laid_out(bars),
                            None,
                        )
                    },
                }
            }
        },
    }
}

proof fn lemma_shrunk_keeps(s: SessionView, tab: u64, have: Seq<u64>, want: nat)
    ensures
        ({
            let t = shrunk(s, tab, have, want);
            &&& t.spaces == s.spaces
            &&& t.next_pane == s.next_pane
            &&& t.next_tab == s.next_tab
            &&& t.tabs.len() == s.tabs.len()
        }),
    decreases have.len(),
{
    if have.len() > want {
        let u = with_less(killed(s, have.last()), tab, have.last());
        lemma_first_where(s.tabs, tab_is(tab));
        lemma_shrunk_keeps(u, tab, have.drop_last(), want);
    }
}

impl Session {
    /// Take a pane out of a tab's layout.
    fn lessen(&mut self, tab: u64, pane: u64)
        requires
            old(self)@.wf(),
        ensures
            final(self)@ == with_less(old(self)@, tab, pane),
            final(self)@.wf(),
    {
        let k: usize = self.tab_index(tab);
        if k < self.tabs.len() {
            let ghost before = self@;
            let mut layout = self.tabs[k].layout.copy();
            layout.close(pane);
            let front = self.tabs[k].focused_pane;
            self.set_tab(k, layout, front);
            proof {
                assert(self@.tabs =~= with_less(before, tab, pane).tabs);
            }
        }
    }

    /// Close the last panes of a tab until there are no more than wanted.
    fn shrink(&mut self, tab: u64, have: &mut Vec<u64>, want: usize)
        requires
            old(self)@.wf(),
        ensures
            final(self)@.wf(),
            final(self)@ == shrunk(old(self)@, tab, old(have)@, want as nat),
            final(have)@ == kept(old(have)@, want as nat),
    {
        let ghost s0 = self@;
        let ghost h0 = have@;
        proof {
            assert(h0.take(h0.len() as int) =~= h0);
        }
        while have.len() > want
            invariant
                self@.wf(),
                have@.len() <= h0.len(),
                have@ == h0.take(have@.len() as int),
                have@.len() >= want || have@.len() == h0.len(),
                shrunk(s0, tab, h0, want as nat) == shrunk(self@, tab, have@, want as nat),
            decreases have@.len(),
        {
            let n: usize = have.len();
            let victim: u64 = have[n - 1];
            let ghost before = have@;
            let last = have.pop();
            proof {
                assert(have@ =~= before.drop_last());
                assert(have@ =~= h0.take(have@.len() as int));
            }
            self.kill_pane(victim);
            self.lessen(tab, victim);
        }
        proof {
            assert(have@ =~= kept(h0, want as nat));
        }
    }

    /// Start so many more panes in a tab.
    fn grow(&mut self, space: u64, tab: u64, shell: &str, cwd: &str, have: &mut Vec<u64>, n: usize)
        requires
            old(self)@.wf(),
            old(self)@.next_pane + n <= u64::MAX,
        ensures
            final(self)@.wf(),
            final(self)@ == grown(old(self)@, space, tab, shell@, cwd@, n as nat),
            final(have)@ == manned(old(have)@, old(self)@.next_pane, n as nat),
    {
        let ghost t = self@;
        let ghost first = t.next_pane;
        let ghost k0 = have@;
        let mut i: usize = 0;
        proof {
            assert(have@ =~= manned(k0, first, 0));
        }
        while i < n
            invariant
                i <= n,
                first + n <= u64::MAX,
                t.next_pane == first,
                self@.wf(),
                self@.next_pane == first + i,
                self@ == grown(t, space, tab, shell@, cwd@, i as nat),
                have@ == manned(k0, first, i as nat),
            decreases n - i,
        {
            let id: u64 = self.spawn_pane(space, tab, shell, cwd);
            have.push(id);
            i = i + 1;
            proof {
                assert(have@ =~= manned(k0, first, i as nat));
            }
        }
    }

    /// The space of a tab, and where that is.
    fn home_of(&self, tab: u64) -> (r: Option<(u64, String)>)
        ensures
            match r {
                None => !self@.has_tab(tab),
                Some((space, cwd)) => self@.has_tab(tab) && (space, cwd@) == home(self@, tab),
            },
    {
        match self.tab(tab) {
            Some(x) => {
                let cwd = match self.space(x.space) {
                    Some(s) => s.cwd.clone(),
                    None => owned("."),
                };
                Some((x.space, cwd))
            },
            None => None,
        }
    }

    /// Apply a named preset to the focused tab, starting or closing panes to match: it always
    /// gets exactly the panes it expects. `preset` is the one of that name.
    pub fn apply_preset(&mut self, bars: Bars, shell: &str, name: &str, preset: Option<Preset>) -> (r:
        Result<(), SessionError>)
        requires
            old(self)@.wf(),
            preset matches Some(p) ==> old(self)@.next_pane + p.want <= u64::MAX,
        ensures
            (
                final(self)@,
                match r {
                    Ok(_) => None,
                    Err(e) => Some(e@),
                },
            ) == shaped(old(self)@, bars, shell@, name@, preset),
            final(self)@.wf(),
    {
        let p = match preset {
            Some(p) => p,
            None => {
                return Err(SessionError::UnknownLayout(owned(name)));
            },
        };
        let tab = match self.focused_tab() {
            Some(t) => t,
            None => {
                return Err(SessionError::NoTab);
            },
        };
        let mut have = self.visible_panes();
        proof {
            lemma_shrunk_keeps(self@, tab, have@, p.want as nat);
        }
        self.shrink(tab, &mut have, p.want);
        let missing: usize = p.want - have.len();
        let ghost t = self@;
        match self.home_of(tab) {
            Some((space, cwd)) => {
                self.grow(space, tab, shell, cwd.as_str(), &mut have, missing);
            },
            None => {
                if missing > 0 {
                    return Err(SessionError::NoTab);
                }
                proof {
                    assert(have@ =~= manned(have@, t.next_pane, 0));
                }
            },
        }
        let ids = ids_of(&have);
        let tree = match rebuild_hnode(&p.tree, &ids) {
            Ok(n) => n,
            Err(i) => {
                return Err(SessionError::BadLayout(owned(name)));
            },
        };
        let front: Option<u64> = if have.len() > 0 {
            Some(have[0])
        } else {
            None
        };
        let k: usize = self.tab_index(tab);
        if k < self.tabs.len() {
            self.set_tab(k, Layout::from_root(tree), front);
        }
        self.view.zoom = None;
        self.relayout(bars);
        Ok(())
    }
}

/// Ids that stand for themselves.
fn ids_of(have: &Vec<u64>) -> (r: Vec<Option<u64>>)
    ensures
        r@ == somes(have@),
{
    let mut ids: Vec<Option<u64>> = Vec::new();
    let mut i: usize = 0;
    while i < have.len()
        invariant
            i <= have@.len(),
            ids@.len() == i,
            forall|j: int| 0 <= j < i ==> #[trigger] ids@[j] == Some(have@[j]),
        decreases have@.len() - i,
    {
        ids.push(Some(have[i]));
        i = i + 1;
    }
    proof {
        assert(ids@ =~= somes(have@));
    }
    ids
}

} // verus!
