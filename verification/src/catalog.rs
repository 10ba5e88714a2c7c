//! Catalog data: search results, the episode list of one title, the
//! screening every catalog response goes through, and the paging of the
//! episode list for display.

use vstd::prelude::*;

verus! {

/// One title found by a catalog search.
pub struct SearchMangaItem {
    pub id: u32,
    pub title: String,
    pub manga_type: u8,
}

/// One episode of a title. The ordering key is carried as its display
/// text (it may be fractional); array order is catalog order.
pub struct Episode {
    pub id: u32,
    pub title: String,
    pub ord: String,
    pub is_locked: bool,
}

/// The episode list of one title.
pub struct MangaDetailResponse {
    pub ep_list: Vec<Episode>,
}

impl SearchMangaItem {
    /// An equal copy.
    pub fn duplicate(&self) -> (r: SearchMangaItem)
        ensures
            r == *self,
    {
        SearchMangaItem { id: self.id, title: self.title.clone(), manga_type: self.manga_type }
    }
}

impl Episode {
    /// An equal copy.
    pub fn duplicate(&self) -> (r: Episode)
        ensures
            r == *self,
    {
        Episode {
            id: self.id,
            title: self.title.clone(),
            ord: self.ord.clone(),
            is_locked: self.is_locked,
        }
    }
}

/// Whether a user-information response shows a logged-in session: a
/// success code and the logged-in flag.
pub fn is_logged_in(code: i32, is_login: bool) -> (r: bool)
    ensures
        r == (code == 0 && is_login),
{
    code == 0 && is_login
}

/// Every catalog response is screened the same way: a zero code hands
/// the data through, any other code is the failure carrying the response
/// message.
pub fn accept_common<T>(code: u8, msg: String, data: T) -> (r: Result<T, String>)
    ensures
        code == 0 ==> r is Ok && r->Ok_0 == data,
        code != 0 ==> r is Err && r->Err_0 == msg,
{
    if code == 0 {
        Ok(data)
    } else {
        Err(msg)
    }
}

/// Only plain comics are offered: entries of any other kind are dropped.
pub open spec fn is_comic(it: SearchMangaItem) -> bool {
    it.manga_type == 0
}

/// Keep only the plain-comic search results, in order.
pub fn filter_comic_items(items: &Vec<SearchMangaItem>) -> (r: Vec<SearchMangaItem>)
    ensures
        r@ == items@.filter(|it: SearchMangaItem| is_comic(it)),
{
    let n = items.len();
    let mut r: Vec<SearchMangaItem> = Vec::new();
    let mut i: usize = 0;
    while i < n
        invariant
            i <= n,
            n == items@.len(),
            r@ == items@.subrange(0, i as int).filter(|it: SearchMangaItem| is_comic(it)),
        decreases n - i,
    {
        if items[i].manga_type == 0 {
            r.push(items[i].duplicate());
        }
        proof {
            reveal(Seq::filter);
            let pre = items@.subrange(0, i as int);
            let pre1 = items@.subrange(0, i + 1 as int);
            assert(pre1.drop_last() =~= pre);
            assert(pre1.last() == items@[i as int]);
            if is_comic(items@[i as int]) {
                assert(r@ =~= pre1.filter(|it: SearchMangaItem| is_comic(it)));
            } else {
                assert(r@ =~= pre1.filter(|it: SearchMangaItem| is_comic(it)));
            }
        }
        i += 1;
    }
    proof {
        assert(items@.subrange(0, n as int) =~= items@);
    }
    r
}

/// The titles of the search results, in order, for the selection menu.
pub fn search_titles(items: &Vec<SearchMangaItem>) -> (r: Vec<String>)
    ensures
        r@.len() == items@.len(),
        forall|i: int| 0 <= i < items@.len() ==> (#[trigger] r@[i]) == items@[i].title,
{
    let n = items.len();
    let mut r: Vec<String> = Vec::new();
    let mut i: usize = 0;
    while i < n
        invariant
            i <= n,
            n == items@.len(),
            r@.len() == i,
            forall|j: int| 0 <= j < i ==> (#[trigger] r@[j]) == items@[j].title,
        decreases n - i,
    {
        r.push(items[i].title.clone());
        i += 1;
    }
    r
}

/// How many episodes a display page holds: the first page eleven, every
/// later one ten.
pub open spec fn page_cap(p: int) -> int {
    if p == 0 {
        11
    } else {
        10
    }
}

/// The episodes of a page list, read out page by page in order.
pub open spec fn flat_pages(pages: Seq<Vec<Episode>>) -> Seq<Episode>
    decreases pages.len(),
{
    if pages.len() == 0 {
        Seq::empty()
    } else {
        flat_pages(pages.drop_last()) + pages.last()@
    }
}

/// Split the episode list into display pages: every page but the last is
/// full, and reading the pages back in order gives the list unchanged.
pub fn paginate_episodes(eps: &Vec<Episode>) -> (r: Vec<Vec<Episode>>)
    ensures
        flat_pages(r@) == eps@,
        forall|p: int| 0 <= p < r@.len() - 1 ==> (#[trigger] r@[p])@.len() == page_cap(p),
        r@.len() > 0 ==> 0 < r@.last()@.len() <= page_cap(r@.len() - 1),
        r@.len() == 0 <==> eps@.len() == 0,
{
    let n = eps.len();
    let mut pages: Vec<Vec<Episode>> = Vec::new();
    let mut current: Vec<Episode> = Vec::new();
    let mut i: usize = 0;
    while i < n
        invariant
            i <= n,
            n == eps@.len(),
            flat_pages(pages@) + current@ == eps@.subrange(0, i as int),
            forall|p: int| 0 <= p < pages@.len() ==> (#[trigger] pages@[p])@.len() == page_cap(p),
            current@.len() < page_cap(pages@.len() as int),
        decreases n - i,
    {
        let ghost pbefore = pages@;
        current.push(eps[i].duplicate());
        proof {
            assert(eps@.subrange(0, i + 1 as int) =~= eps@.subrange(0, i as int).push(
                eps@[i as int],
            ));
            assert(flat_pages(pbefore) + current@ =~= eps@.subrange(0, i + 1 as int));
        }
        let cap: usize = if pages.len() == 0 {
            11
        } else {
            10
        };
        if current.len() == cap {
            let full = current;
            pages.push(full);
            current = Vec::new();
            proof {
                assert(pages@.drop_last() =~= pbefore);
                assert(flat_pages(pages@) == flat_pages(pbefore) + pages@.last()@);
                assert(flat_pages(pages@) + current@ =~= eps@.subrange(0, i + 1 as int));
            }
        }
        i += 1;
    }
    if current.len() > 0 {
        let ghost pbefore = pages@;
        pages.push(current);
        proof {
            assert(pages@.drop_last() =~= pbefore);
            assert(flat_pages(pages@) =~= eps@.subrange(0, n as int));
            assert(eps@.subrange(0, n as int) =~= eps@);
        }
    } else {
        proof {
            assert(flat_pages(pages@) + current@ =~= flat_pages(pages@));
            assert(eps@.subrange(0, n as int) =~= eps@);
        }
    }
    pages
}

} // verus!
