//! Decisions of the interactive episode picker: page navigation with
//! wrap-around, the per-page selection store, the preselection flags shown
//! when a page is reopened, and the final read-out of the chosen episodes
//! in page order.

use vstd::prelude::*;
use crate::catalog::Episode;

verus! {

/// The picker's state over a paged episode list: the page on display and,
/// for each page, the indices chosen on it (None until the page has been
/// visited).
pub struct SelectionState {
    pub current: usize,
    pub chosen: Vec<Option<Vec<usize>>>,
}

impl SelectionState {
    pub open spec fn wf(self) -> bool {
        &&& self.chosen@.len() >= 1
        &&& self.current < self.chosen@.len()
    }

    /// A fresh picker over the given number of pages, opened on the first
    /// page with nothing chosen.
    pub fn new(n_pages: usize) -> (r: SelectionState)
        requires
            n_pages >= 1,
        ensures
            r.wf(),
            r.current == 0,
            r.chosen@.len() == n_pages,
            forall|p: int| 0 <= p < n_pages ==> (#[trigger] r.chosen@[p]) is None,
    {
        let mut chosen: Vec<Option<Vec<usize>>> = Vec::new();
        let mut i: usize = 0;
        while i < n_pages
            invariant
                i <= n_pages,
                chosen@.len() == i,
                forall|p: int| 0 <= p < i ==> (#[trigger] chosen@[p]) is None,
            decreases n_pages - i,
        {
            chosen.push(None);
            i += 1;
        }
        SelectionState { current: 0, chosen }
    }

    /// Move one page up, wrapping from the first page to the last.
    pub fn page_up(&mut self)
        requires
            old(self).wf(),
        ensures
            final(self).wf(),
            final(self).chosen == old(self).chosen,
            old(self).current > 0 ==> final(self).current == old(self).current - 1,
            old(self).current == 0 ==> final(self).current == old(self).chosen@.len() - 1,
    {
        if self.current > 0 {
            self.current = self.current - 1;
        } else {
            self.current = self.chosen.len() - 1;
        }
    }

    /// Move one page down, wrapping from the last page to the first.
    pub fn page_down(&mut self)
        requires
            old(self).wf(),
        ensures
            final(self).wf(),
            final(self).chosen == old(self).chosen,
            old(self).current + 1 < old(self).chosen@.len() ==> final(self).current == old(
                self,
            ).current + 1,
            old(self).current + 1 == old(self).chosen@.len() ==> final(self).current == 0,
    {
        let n = self.chosen.len();
        if self.current < n - 1 {
            self.current = self.current + 1;
        } else {
            self.current = 0;
        }
    }

    /// Store what was chosen on the page on display.
    pub fn set_current_selection(&mut self, picked: Vec<usize>)
        requires
            old(self).wf(),
        ensures
            final(self).wf(),
            final(self).current == old(self).current,
            final(self).chosen@ == old(self).chosen@.update(
                old(self).current as int,
                Some(picked),
            ),
    {
        let c = self.current;
        self.chosen[c] = Some(picked);
    }

    /// Choose every episode of the page on display.
    pub fn select_all_current(&mut self, n_items: usize)
        requires
            old(self).wf(),
        ensures
            final(self).wf(),
            final(self).current == old(self).current,
            final(self).chosen@.len() == old(self).chosen@.len(),
            forall|p: int| 0 <= p < old(self).chosen@.len() && p != old(self).current
                ==> final(self).chosen@[p] == old(self).chosen@[p],
            final(self).chosen@[old(self).current as int] is Some,
            ({
                let v = final(self).chosen@[old(self).current as int]->Some_0;
                v@.len() == n_items && forall|k: int| 0 <= k < n_items ==> #[trigger] v@[k] == k
            }),
    {
        let all = all_indices(n_items);
        let c = self.current;
        self.chosen[c] = Some(all);
    }

    /// The preselection flags for the page on display: one flag per
    /// episode of the page, set exactly where the episode was chosen
    /// before.
    pub fn default_flags(&self, n_items: usize) -> (r: Vec<bool>)
        requires
            self.wf(),
        ensures
            r@.len() == n_items,
            forall|k: int| 0 <= k < n_items ==> #[trigger] r@[k] == match self.chosen@[
                self.current as int
            ] {
                Some(v) => v@.contains(k as usize),
                None => false,
            },
    {
        let mut r: Vec<bool> = Vec::new();
        let mut k: usize = 0;
        while k < n_items
            invariant
                k <= n_items,
                self.wf(),
                r@.len() == k,
                forall|j: int| 0 <= j < k ==> #[trigger] r@[j] == match self.chosen@[
                    self.current as int
                ] {
                    Some(v) => v@.contains(j as usize),
                    None => false,
                },
            decreases n_items - k,
        {
            let flag = match &self.chosen[self.current] {
                Some(v) => contains_index(v, k),
                None => false,
            };
            r.push(flag);
            k += 1;
        }
        r
    }
}

/// Whether an index list holds the given index.
pub fn contains_index(v: &Vec<usize>, x: usize) -> (r: bool)
    ensures
        r == v@.contains(x),
{
    let n = v.len();
    let mut i: usize = 0;
    while i < n
        invariant
            i <= n,
            n == v@.len(),
            forall|j: int| 0 <= j < i ==> v@[j] != x,
        decreases n - i,
    {
        if v[i] == x {
            return true;
        }
        i += 1;
    }
    false
}

/// Every index below the bound, in order.
pub fn all_indices(n: usize) -> (r: Vec<usize>)
    ensures
        r@.len() == n,
        forall|k: int| 0 <= k < n ==> #[trigger] r@[k] == k,
{
    let mut r: Vec<usize> = Vec::new();
    let mut i: usize = 0;
    while i < n
        invariant
            i <= n,
            r@.len() == i,
            forall|k: int| 0 <= k < i ==> #[trigger] r@[k] == k,
        decreases n - i,
    {
        r.push(i);
        i += 1;
    }
    r
}

/// The episodes one page contributes: those at its chosen indices, in
/// the order they were chosen; a page never visited contributes none.
pub open spec fn picked(eps: Vec<Episode>, sel: Option<Vec<usize>>) -> Seq<Episode> {
    match sel {
        Some(v) => v@.map_values(|ix: usize| eps@[ix as int]),
        None => Seq::empty(),
    }
}

/// The episodes the first `upto` pages contribute, page by page.
pub open spec fn collect_spec(
    pages: Seq<Vec<Episode>>,
    chosen: Seq<Option<Vec<usize>>>,
    upto: int,
) -> Seq<Episode>
    decreases upto,
{
    if upto <= 0 {
        Seq::empty()
    } else {
        collect_spec(pages, chosen, upto - 1) + picked(pages[upto - 1], chosen[upto - 1])
    }
}

/// Every chosen index points into its page.
pub open spec fn selection_in_bounds(
    pages: Seq<Vec<Episode>>,
    chosen: Seq<Option<Vec<usize>>>,
) -> bool {
    forall|p: int, k: int|
        0 <= p < chosen.len() && chosen[p] is Some && 0 <= k < chosen[p]->Some_0@.len()
            ==> (#[trigger] chosen[p]->Some_0@[k]) < pages[p]@.len()
}

/// Read the chosen episodes out, page by page in page order, inside each
/// page in the order they were chosen.
pub fn collect_selected(pages: &Vec<Vec<Episode>>, state: &SelectionState) -> (r: Vec<Episode>)
    requires
        state.chosen@.len() == pages@.len(),
        selection_in_bounds(pages@, state.chosen@),
    ensures
        r@ == collect_spec(pages@, state.chosen@, pages@.len() as int),
{
    let n = pages.len();
    let mut r: Vec<Episode> = Vec::new();
    let mut p: usize = 0;
    while p < n
        invariant
            p <= n,
            n == pages@.len(),
            state.chosen@.len() == pages@.len(),
            selection_in_bounds(pages@, state.chosen@),
            r@ == collect_spec(pages@, state.chosen@, p as int),
        decreases n - p,
    {
        match &state.chosen[p] {
            Some(v) => {
                let m = v.len();
                let mut k: usize = 0;
                while k < m
                    invariant
                        k <= m,
                        p < n,
                        n == pages@.len(),
                        m == v@.len(),
                        state.chosen@.len() == pages@.len(),
                        selection_in_bounds(pages@, state.chosen@),
                        state.chosen@[p as int] is Some,
                        v == state.chosen@[p as int]->Some_0,
                        r@ == collect_spec(pages@, state.chosen@, p as int) + v@.subrange(
                            0,
                            k as int,
                        ).map_values(|ix: usize| pages@[p as int]@[ix as int]),
                    decreases m - k,
                {
                    let ix = v[k];
                    r.push(pages[p][ix].duplicate());
                    proof {
                        let f = |ix: usize| pages@[p as int]@[ix as int];
                        assert(v@.subrange(0, k + 1 as int) =~= v@.subrange(0, k as int).push(
                            v@[k as int],
                        ));
                        assert(v@.subrange(0, k + 1 as int).map_values(f) =~= v@.subrange(
                            0,
                            k as int,
                        ).map_values(f).push(f(v@[k as int])));
                    }
                    k += 1;
                }
                proof {
                    assert(v@.subrange(0, m as int) =~= v@);
                    assert(r@ =~= collect_spec(pages@, state.chosen@, p + 1 as int));
                }
            },
            None => {
                proof {
                    assert(r@ =~= collect_spec(pages@, state.chosen@, p + 1 as int));
                }
            },
        }
        p += 1;
    }
    r
}

} // verus!
