//! Bounded first-link walker.
//!
//! Starting from one page identifier, the walker repeatedly follows
//! the first hyperlink of the current page that does not name an
//! administrative namespace, until it reaches the target page, sees a
//! page for the second time, meets a page without links or an unknown
//! page, or exhausts a fixed ceiling of steps.  The walker itself only
//! decides; fetching a page and extracting its links is the caller's
//! business, handed back through [`Walker::on_fetch_result`].

use vstd::prelude::*;
use crate::text::str_chars;
use crate::text::vec_contains_string;

verus! {

/// Ceiling on the number of link-follow steps of one walk.
pub const STEP_LIMIT: usize = 500;

/// The terminal outcome of one walk.  Exactly one is produced.
pub enum WalkOutcome {
    /// The target page was reached after this many steps.
    Reached { target: String, steps: usize },
    /// The walk came back to an already visited page.
    CycleDetected { page: String },
    /// The current page does not exist.
    PageNotFound { page: String },
    /// The current page has no qualifying link.
    DeadEnd { page: String },
    /// The step ceiling was reached before any other outcome.
    StepLimitExceeded,
}

/// What the walker wants next: either the walk is over, or the named
/// page must be fetched and its links handed back.
pub enum WalkAction {
    Finished(WalkOutcome),
    Fetch(String),
}

/// A link names a page outside the article namespace.
pub open spec fn is_namespace_link(s: Seq<char>) -> bool {
    "Help:"@.is_prefix_of(s) || "Template:"@.is_prefix_of(s)
}

/// Index of the first link that is no namespace link, or -1 if every
/// link is one.
pub open spec fn first_qualifying(ls: Seq<Seq<char>>) -> int
    decreases ls.len(),
{
    if ls.len() == 0 {
        -1
    } else if !is_namespace_link(ls.first()) {
        0
    } else {
        let r = first_qualifying(ls.drop_first());
        if r < 0 {
            -1
        } else {
            r + 1
        }
    }
}

/// What `first_qualifying` returns: a valid index of a qualifying
/// link preceded by namespace links only, or -1 when there is none.
proof fn lemma_first_qualifying(ls: Seq<Seq<char>>)
    ensures
        first_qualifying(ls) >= 0 ==> first_qualifying(ls) < ls.len() && !is_namespace_link(
            ls[first_qualifying(ls)],
        ) && (forall|j: int| 0 <= j < first_qualifying(ls) ==> is_namespace_link(ls[j])),
        first_qualifying(ls) < 0 ==> forall|j: int|
            0 <= j < ls.len() ==> is_namespace_link(ls[j]),
    decreases ls.len(),
{
    if ls.len() == 0 {
    } else if !is_namespace_link(ls.first()) {
    } else {
        lemma_first_qualifying(ls.drop_first());
        let r = first_qualifying(ls.drop_first());
        assert(forall|j: int| 1 <= j < ls.len() ==> ls[j] == ls.drop_first()[j - 1]);
    }
}

/// A qualifying link preceded by namespace links only is the first
/// one.
proof fn lemma_first_qualifying_is(ls: Seq<Seq<char>>, i: int)
    requires
        0 <= i < ls.len(),
        !is_namespace_link(ls[i]),
        forall|j: int| 0 <= j < i ==> is_namespace_link(ls[j]),
    ensures
        first_qualifying(ls) == i,
    decreases i,
{
    if i == 0 {
    } else {
        assert(forall|j: int| 0 <= j < ls.drop_first().len() ==> ls.drop_first()[j] == ls[j + 1]);
        lemma_first_qualifying_is(ls.drop_first(), i - 1);
    }
}

/// Whether `p` is a prefix of `s`, compared character by character.
fn has_prefix(s: &Vec<char>, p: &Vec<char>) -> (b: bool)
    ensures
        b == p@.is_prefix_of(s@),
{
    if p.len() > s.len() {
        return false;
    }
    let mut i: usize = 0;
    while i < p.len()
        invariant
            i <= p.len() <= s.len(),
            forall|j: int| 0 <= j < i ==> p@[j] == s@[j],
        decreases p.len() - i,
    {
        if s[i] != p[i] {
            assert(s@.subrange(0, p@.len() as int)[i as int] == s@[i as int]);
            return false;
        }
        i = i + 1;
    }
    assert(p@ =~= s@.subrange(0, p@.len() as int));
    true
}

/// Whether a link may be followed: it does not carry the `Help:` or
/// `Template:` namespace prefix.
pub fn qualifies(link: &String) -> (b: bool)
    ensures
        b == !is_namespace_link(link@),
{
    let cs = str_chars(link.as_str());
    let help = str_chars("Help:");
    let templ = str_chars("Template:");
    let h = has_prefix(&cs, &help);
    let t = has_prefix(&cs, &templ);
    !(h || t)
}

/// The first link of `links` that is no namespace link, or `None` if
/// every link is one.
pub fn select_first_link(links: &Vec<String>) -> (r: Option<String>)
    ensures
        r is None <==> first_qualifying(links.deep_view()) < 0,
        r is Some ==> r->Some_0@ == links.deep_view()[first_qualifying(links.deep_view())],
{
    let ghost ls = links.deep_view();
    let mut i: usize = 0;
    while i < links.len()
        invariant
            ls == links.deep_view(),
            i <= links.len() == ls.len(),
            forall|j: int| 0 <= j < i ==> is_namespace_link(ls[j]),
        decreases links.len() - i,
    {
        assert(links[i as int]@ == ls[i as int]);
        if qualifies(&links[i]) {
            proof {
                lemma_first_qualifying_is(ls, i as int);
            }
            return Some(links[i].clone());
        }
        i = i + 1;
    }
    proof {
        lemma_first_qualifying(ls);
    }
    None
}

/// The state of one walk: the page the walk stands on, the page it
/// wants, the pages already visited, and the steps taken so far.
pub struct Walker {
    pub current: String,
    pub target: String,
    pub visited: Vec<String>,
    pub steps: usize,
}

impl Walker {
    /// The walker never oversteps its ceiling and never records a
    /// page twice.
    pub open spec fn wf(self) -> bool {
        &&& self.steps <= STEP_LIMIT
        &&& forall|i: int, j: int|
            0 <= i < j < self.visited.len() ==> self.visited.deep_view()[i]
                != self.visited.deep_view()[j]
    }

    /// A fresh walk from `start` towards `target`: nothing visited,
    /// no step taken.
    pub fn new(start: String, target: String) -> (w: Walker)
        ensures
            w.wf(),
            w.current == start,
            w.target == target,
            w.visited.len() == 0,
            w.steps == 0,
    {
        Walker { current: start, target, visited: Vec::new(), steps: 0 }
    }

    /// Decide the next move without any outside work: the walk is
    /// over exactly when the current page is the target (reached) or
    /// was already visited (cycle); otherwise the current page must
    /// be fetched.
    pub fn next_action(&self) -> (a: WalkAction)
        requires
            self.wf(),
        ensures
            match a {
                WalkAction::Finished(o) => match o {
                    WalkOutcome::Reached { target, steps } => {
                        &&& self.current@ == self.target@
                        &&& target@ == self.target@
                        &&& steps == self.steps
                    },
                    WalkOutcome::CycleDetected { page } => {
                        &&& self.current@ != self.target@
                        &&& self.visited.deep_view().contains(self.current@)
                        &&& page@ == self.current@
                    },
                    _ => false,
                },
                WalkAction::Fetch(p) => {
                    &&& p@ == self.current@
                    &&& self.current@ != self.target@
                    &&& !self.visited.deep_view().contains(self.current@)
                },
            },
    {
        if self.current == self.target {
            return WalkAction::Finished(
                WalkOutcome::Reached { target: self.current.clone(), steps: self.steps },
            );
        }
        if vec_contains_string(&self.visited, &self.current) {
            return WalkAction::Finished(
                WalkOutcome::CycleDetected { page: self.current.clone() },
            );
        }
        WalkAction::Fetch(self.current.clone())
    }

    /// Take the fetch outcome of the current page and its extracted
    /// links, and either finish the walk or move to the first
    /// qualifying link.  A missing page ends the walk at once and
    /// changes nothing; otherwise the current page is recorded as
    /// visited, and the walk either dies out (no qualifying link),
    /// hits the step ceiling, or goes on.  Each continuing round
    /// raises `steps` by exactly one and keeps it under the ceiling,
    /// so a walk makes at most `STEP_LIMIT` rounds in all.
    pub fn on_fetch_result(&mut self, page_exists: bool, links: &Vec<String>) -> (r: Option<
        WalkOutcome,
    >)
        requires
            old(self).wf(),
            old(self).steps < STEP_LIMIT,
            old(self).current@ != old(self).target@,
            !old(self).visited.deep_view().contains(old(self).current@),
        ensures
            final(self).wf(),
            final(self).target == old(self).target,
            !page_exists ==> *final(self) == *old(self) && (match r {
                Some(WalkOutcome::PageNotFound { page }) => page@ == old(self).current@,
                _ => false,
            }),
            page_exists ==> final(self).visited.deep_view() == old(
                self,
            ).visited.deep_view().push(old(self).current@),
            page_exists && first_qualifying(links.deep_view()) < 0 ==> final(self).current == old(
                self,
            ).current && final(self).steps == old(self).steps && (match r {
                Some(WalkOutcome::DeadEnd { page }) => page@ == old(self).current@,
                _ => false,
            }),
            page_exists && first_qualifying(links.deep_view()) >= 0 ==> {
                &&& final(self).current@ == links.deep_view()[first_qualifying(links.deep_view())]
                &&& final(self).steps == old(self).steps + 1
                &&& (if old(self).steps + 1 >= STEP_LIMIT {
                    r == Some(WalkOutcome::StepLimitExceeded)
                } else {
                    r is None
                })
            },
            r is None ==> final(self).steps == old(self).steps + 1 && final(self).steps
                < STEP_LIMIT,
    {
        if !page_exists {
            return Some(WalkOutcome::PageNotFound { page: self.current.clone() });
        }
        let ghost oldv = self.visited.deep_view();
        self.visited.push(self.current.clone());
        proof {
            assert(self.visited.deep_view() =~= oldv.push(old(self).current@));
        }
        match select_first_link(links) {
            None => Some(WalkOutcome::DeadEnd { page: self.current.clone() }),
            Some(next) => {
                self.current = next;
                self.steps = self.steps + 1;
                if self.steps >= STEP_LIMIT {
                    Some(WalkOutcome::StepLimitExceeded)
                } else {
                    None
                }
            },
        }
    }
}

/// Law: a walk halts in one of the terminal outcomes within the step
/// ceiling.  `wf` bounds the step counter by `STEP_LIMIT` at all
/// times, and `on_fetch_result` raises the counter by exactly one in
/// every round that does not finish the walk, so no walk can go
/// through more than `STEP_LIMIT` fetch rounds before one of the
/// outcomes is produced.
pub proof fn lemma_walk_bounded(w: Walker)
    requires
        w.wf(),
    ensures
        0 <= STEP_LIMIT - w.steps <= STEP_LIMIT,
{
}

} // verus!
