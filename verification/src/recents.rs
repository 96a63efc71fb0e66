//! The projects opened before, most recent first.

use crate::clock::now_millis;
use crate::seqs::{lemma_pick_sound, lemma_pick_take, pick};
use crate::state::{Session, SessionView};
use crate::text::{owned, same};
use vstd::prelude::*;
use vstd::string::*;

verus! {

/// How many projects are remembered: a list you pick from by eye.
pub const MAX_RECENTS: usize = 12;

/// A project opened before.
#[derive(Debug, Clone, PartialEq, Eq)]
pub struct Recent {
    pub name: String,
    pub cwd: String,
    /// Unix millis.
    pub last_used: u64,
}

/// The same, as text.
pub struct RecentView {
    pub name: Seq<char>,
    pub cwd: Seq<char>,
    pub last_used: u64,
}

impl View for Recent {
    type V = RecentView;

    open spec fn view(&self) -> RecentView {
        RecentView { name: self.name@, cwd: self.cwd@, last_used: self.last_used }
    }
}

/// Projects, as text.
pub open spec fn recent_views(v: Seq<Recent>) -> Seq<RecentView> {
    Seq::new(v.len(), |i: int| v[i]@)
}

/// A project in another directory.
pub open spec fn elsewhere(cwd: Seq<char>) -> spec_fn(RecentView) -> bool {
    |r: RecentView| r.cwd != cwd
}

/// The list with a project at its head. Keyed on the directory, not the name: a space can be
/// renamed.
pub open spec fn remembered(
    rs: Seq<RecentView>,
    name: Seq<char>,
    cwd: Seq<char>,
    now: u64,
) -> Seq<RecentView> {
    let all = seq![RecentView { name, cwd, last_used: now }] + pick(
        rs,
        elsewhere(cwd),
        |r: RecentView| r,
    );
    if all.len() <= MAX_RECENTS {
        all
    } else {
        all.take(MAX_RECENTS as int)
    }
}

/// The list once a session has been looked at: its project in front is at the head, and an
/// entry that is there already keeps its time.
pub open spec fn noted(rs: Seq<RecentView>, s: SessionView, now: u64) -> Seq<RecentView> {
    match s.focused_space {
        Some(id) if s.has_space(id) => {
            let sp = s.spaces[s.space_at(id)];
            if rs.len() > 0 && rs[0].cwd == sp.cwd {
                rs
            } else {
                remembered(rs, sp.name, sp.cwd, now)
            }
        },
        _ => rs,
    }
}

/// The projects opened before, most recent first.
pub struct Recents {
    pub list: Vec<Recent>,
}

impl View for Recents {
    type V = Seq<RecentView>;

    open spec fn view(&self) -> Seq<RecentView> {
        recent_views(self.list@)
    }
}

/// A project opened before, and whether it is on screen now.
#[derive(Debug, Clone, PartialEq, Eq)]
pub struct RecentProject {
    pub name: String,
    pub cwd: String,
    pub last_used: u64,
    pub live: bool,
}

/// The same, as text.
pub struct RecentProjectView {
    pub name: Seq<char>,
    pub cwd: Seq<char>,
    pub last_used: u64,
    pub live: bool,
}

impl View for RecentProject {
    type V = RecentProjectView;

    open spec fn view(&self) -> RecentProjectView {
        RecentProjectView {
            name: self.name@,
            cwd: self.cwd@,
            last_used: self.last_used,
            live: self.live,
        }
    }
}

/// Projects, as text.
pub open spec fn project_views(v: Seq<RecentProject>) -> Seq<RecentProjectView> {
    Seq::new(v.len(), |i: int| v[i]@)
}

/// The projects opened before, with those on screen marked.
pub open spec fn projects_of(rs: Seq<RecentView>, s: SessionView) -> Seq<RecentProjectView> {
    Seq::new(
        rs.len(),
        |i: int|
            RecentProjectView {
                name: rs[i].name,
                cwd: rs[i].cwd,
                last_used: rs[i].last_used,
                live: is_open(s, rs[i].cwd),
            },
    )
}

/// Whether a directory is open in a session.
pub open spec fn is_open(s: SessionView, cwd: Seq<char>) -> bool {
    exists|i: int| 0 <= i < s.spaces.len() && (#[trigger] s.spaces[i]).cwd == cwd
}

impl Recents {
    /// [`Recents::remember_project`], at a given time.
    pub fn remember_at(&mut self, name: &str, cwd: &str, now: u64)
        ensures
            final(self)@ == remembered(old(self)@, name@, cwd@, now),
    {
        let ghost all = self@;
        let ghost f = |r: RecentView| r;
        let mut out: Vec<Recent> = Vec::new();
        out.push(Recent { name: owned(name), cwd: owned(cwd), last_used: now });
        let ghost head = seq![RecentView { name: name@, cwd: cwd@, last_used: now }];
        let mut i: usize = 0;
        proof {
            assert(recent_views(out@) =~= head + pick(all.take(0), elsewhere(cwd@), f));
        }
        while i < self.list.len()
            invariant
                i <= self.list@.len(),
                all == recent_views(self.list@),
                f == (|r: RecentView| r),
                recent_views(out@) == head + pick(all.take(i as int), elsewhere(cwd@), f),
            decreases self.list@.len() - i,
        {
            let r = &self.list[i];
            proof {
                lemma_pick_take(all, elsewhere(cwd@), f, i as int);
                assert(all[i as int] == r@);
            }
            if !same(r.cwd.as_str(), cwd) {
                let ghost had = recent_views(out@);
                let copy = Recent {
                    name: r.name.clone(),
                    cwd: r.cwd.clone(),
                    last_used: r.last_used,
                };
                out.push(copy);
                proof {
                    assert(recent_views(out@) =~= had.push(r@));
                    assert(recent_views(out@) =~= head + pick(
                        all.take(i as int + 1),
                        elsewhere(cwd@),
                        f,
                    ));
                }
            }
            i = i + 1;
        }
        proof {
            assert(all.take(i as int) =~= all);
        }
        let ghost whole = recent_views(out@);
        if out.len() > MAX_RECENTS {
            out.truncate(MAX_RECENTS);
        }
        self.list = out;
        proof {
            assert(self@ =~= remembered(all, name@, cwd@, now));
        }
    }

    /// Record that a project was opened or returned to, most recent first.
    pub fn remember_project(&mut self, name: &str, cwd: &str)
        ensures
            exists|now: u64|
                final(self)@ == #[trigger] remembered(old(self)@, name@, cwd@, now),
    {
        let now = now_millis();
        self.remember_at(name, cwd, now);
    }

    /// Move the project in front to the head of the list, if it is not already there.
    pub fn note_focused_project(&mut self, s: &Session, now: u64)
        ensures
            final(self)@ == noted(old(self)@, s@, now),
    {
        let id = match s.focused_space {
            Some(id) => id,
            None => {
                return;
            },
        };
        match s.space(id) {
            Some(sp) => {
                let first = self.list.len() > 0 && same(
                    self.list[0].cwd.as_str(),
                    sp.cwd.as_str(),
                );
                if !first {
                    self.remember_at(sp.name.as_str(), sp.cwd.as_str(), now);
                }
            },
            None => {},
        }
    }

    /// The list as a client is told it, with the projects already on screen marked.
    pub fn recent_projects(&self, s: &Session) -> (r: Vec<RecentProject>)
        ensures
            project_views(r@) == projects_of(self@, s@),
    {
        let mut out: Vec<RecentProject> = Vec::new();
        let mut i: usize = 0;
        while i < self.list.len()
            invariant
                i <= self.list@.len(),
                out@.len() == i,
                forall|j: int| 0 <= j < i ==> (#[trigger] out@[j])@ == projects_of(self@, s@)[j],
            decreases self.list@.len() - i,
        {
            let r = &self.list[i];
            let live = open_in(s, r.cwd.as_str());
            out.push(
                RecentProject {
                    name: r.name.clone(),
                    cwd: r.cwd.clone(),
                    last_used: r.last_used,
                    live,
                },
            );
            i = i + 1;
        }
        proof {
            assert(project_views(out@) =~= projects_of(self@, s@));
        }
        out
    }
}

/// Whether a directory is open in a session.
pub fn open_in(s: &Session, cwd: &str) -> (r: bool)
    ensures
        r == is_open(s@, cwd@),
{
    let mut i: usize = 0;
    while i < s.spaces.len()
        invariant
            i <= s.spaces@.len(),
            forall|j: int| 0 <= j < i ==> (#[trigger] s@.spaces[j]).cwd != cwd@,
        decreases s.spaces@.len() - i,
    {
        if same(s.spaces[i].cwd.as_str(), cwd) {
            proof {
                assert(s@.spaces[i as int].cwd == cwd@);
            }
            return true;
        }
        i = i + 1;
    }
    false
}

// -- laws --------------------------------------------------------------------

/// The list is never longer than it may be, and the project just remembered is its head.
pub proof fn law_the_list_is_capped(rs: Seq<RecentView>, name: Seq<char>, cwd: Seq<char>, now: u64)
    ensures
        remembered(rs, name, cwd, now).len() <= MAX_RECENTS,
        remembered(rs, name, cwd, now).len() > 0,
        remembered(rs, name, cwd, now)[0] == (RecentView { name, cwd, last_used: now }),
{
}

/// Reopening a project moves it up rather than listing it twice: its directory is in the list
/// once, at the head.
pub proof fn law_a_project_is_listed_once(
    rs: Seq<RecentView>,
    name: Seq<char>,
    cwd: Seq<char>,
    now: u64,
    i: int,
)
    requires
        0 < i < remembered(rs, name, cwd, now).len(),
    ensures
        remembered(rs, name, cwd, now)[i].cwd != cwd,
{
    let f = |r: RecentView| r;
    let kept = pick(rs, elsewhere(cwd), f);
    assert(remembered(rs, name, cwd, now)[i] == kept[i - 1]);
    let k = lemma_pick_sound(rs, elsewhere(cwd), f, i - 1);
}

} // verus!
