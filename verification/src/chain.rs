//! Linked text frames: a chain of frames through which one text flows.
use vstd::prelude::*;
use crate::document::{
    page_models, item_models, ContentModel, Document, ItemContent, ItemModel, Page, PageModel,
};
use crate::document::DocModel;
use crate::format::TextAttribute;
use crate::text_box::{BoxModel, EditState, FrameProps, TextBox};
use crate::utf8_text::{byte_len, same_text, str_byte_len};

verus! {

// ── Finding frames by id ─────────────────────────────────────────────────────

/// Index of the first item with the given id.
pub open spec fn find_in(items: Seq<ItemModel>, id: Seq<char>) -> Option<int>
    decreases items.len(),
{
    if items.len() == 0 {
        None
    } else {
        match find_in(items.drop_last(), id) {
            Some(i) => Some(i),
            None => if items.last().id == id {
                Some(items.len() - 1)
            } else {
                None
            },
        }
    }
}

/// Page and index of the first item, in page order, with the given id.
pub open spec fn find_loc(pages: Seq<PageModel>, id: Seq<char>) -> Option<(int, int)>
    decreases pages.len(),
{
    if pages.len() == 0 {
        None
    } else {
        match find_loc(pages.drop_last(), id) {
            Some(l) => Some(l),
            None => match find_in(pages.last().items, id) {
                Some(i) => Some((pages.len() - 1, i)),
                None => None,
            },
        }
    }
}

/// The first item with the given id.
pub open spec fn item_by_id(pages: Seq<PageModel>, id: Seq<char>) -> Option<ItemModel> {
    match find_loc(pages, id) {
        Some((p, i)) => Some(pages[p].items[i]),
        None => None,
    }
}

/// The text frame of the first item with the given id.
pub open spec fn box_by_id(pages: Seq<PageModel>, id: Seq<char>) -> Option<BoxModel> {
    match item_by_id(pages, id) {
        Some(it) => match it.content {
            ContentModel::Text(b) => Some(b),
            _ => None,
        },
        None => None,
    }
}

/// The id of the frame after `id` in its chain.
pub open spec fn next_of(pages: Seq<PageModel>, id: Seq<char>) -> Option<Seq<char>> {
    match box_by_id(pages, id) {
        Some(b) => b.frame.next_frame_id,
        None => None,
    }
}

/// The id of the frame before `id` in its chain.
pub open spec fn prev_of(pages: Seq<PageModel>, id: Seq<char>) -> Option<Seq<char>> {
    match box_by_id(pages, id) {
        Some(b) => b.frame.prev_frame_id,
        None => None,
    }
}

/// All items of all pages, in page order.
pub open spec fn all_items(pages: Seq<PageModel>) -> Seq<ItemModel>
    decreases pages.len(),
{
    if pages.len() == 0 {
        Seq::empty()
    } else {
        all_items(pages.drop_last()) + pages.last().items
    }
}

pub proof fn lemma_find_in(items: Seq<ItemModel>, id: Seq<char>)
    ensures
        match find_in(items, id) {
            Some(i) => 0 <= i < items.len() && items[i].id == id && forall|k: int|
                0 <= k < i ==> #[trigger] items[k].id != id,
            None => forall|k: int| 0 <= k < items.len() ==> #[trigger] items[k].id != id,
        },
    decreases items.len(),
{
    if items.len() > 0 {
        lemma_find_in(items.drop_last(), id);
        assert forall|k: int| 0 <= k < items.len() - 1 implies items[k] == items.drop_last()[k] by {}
    }
}

pub proof fn lemma_find_loc(pages: Seq<PageModel>, id: Seq<char>)
    ensures
        match find_loc(pages, id) {
            Some((p, i)) => 0 <= p < pages.len() && 0 <= i < pages[p].items.len()
                && pages[p].items[i].id == id && find_in(pages[p].items, id) == Some(i) && forall|
                q: int,
            |
                0 <= q < p ==> #[trigger] find_in(pages[q].items, id) is None,
            None => forall|q: int| 0 <= q < pages.len() ==> #[trigger] find_in(pages[q].items, id) is None,
        },
    decreases pages.len(),
{
    if pages.len() > 0 {
        lemma_find_loc(pages.drop_last(), id);
        lemma_find_in(pages.last().items, id);
        assert forall|q: int| 0 <= q < pages.len() - 1 implies pages[q] == pages.drop_last()[q] by {}
    }
}

proof fn lemma_find_in_first(items: Seq<ItemModel>, id: Seq<char>, j: int)
    requires
        0 <= j < items.len(),
        items[j].id == id,
        forall|k: int| 0 <= k < j ==> #[trigger] items[k].id != id,
    ensures
        find_in(items, id) == Some(j),
{
    lemma_find_in(items, id);
}

proof fn lemma_find_in_absent(items: Seq<ItemModel>, id: Seq<char>)
    requires
        forall|k: int| 0 <= k < items.len() ==> #[trigger] items[k].id != id,
    ensures
        find_in(items, id) is None,
{
    lemma_find_in(items, id);
}

proof fn lemma_find_loc_first(pages: Seq<PageModel>, id: Seq<char>, p: int, i: int)
    requires
        0 <= p < pages.len(),
        find_in(pages[p].items, id) == Some(i),
        forall|q: int| 0 <= q < p ==> #[trigger] find_in(pages[q].items, id) is None,
    ensures
        find_loc(pages, id) == Some((p, i)),
    decreases pages.len(),
{
    lemma_find_loc(pages, id);
    if p < pages.len() - 1 {
        assert forall|q: int| 0 <= q < p implies #[trigger] find_in(pages.drop_last()[q].items, id) is None by {
            assert(pages.drop_last()[q] == pages[q]);
        }
        assert(pages.drop_last()[p] == pages[p]);
        lemma_find_loc_first(pages.drop_last(), id, p, i);
    } else {
        lemma_find_loc(pages.drop_last(), id);
        match find_loc(pages.drop_last(), id) {
            Some((p2, i2)) => {
                assert(pages.drop_last()[p2] == pages[p2]);
            },
            None => {},
        }
    }
}

proof fn lemma_find_loc_absent(pages: Seq<PageModel>, id: Seq<char>)
    requires
        forall|q: int| 0 <= q < pages.len() ==> #[trigger] find_in(pages[q].items, id) is None,
    ensures
        find_loc(pages, id) is None,
    decreases pages.len(),
{
    if pages.len() > 0 {
        assert forall|q: int| 0 <= q < pages.len() - 1 implies #[trigger] find_in(pages.drop_last()[q].items, id) is None by {
            assert(pages.drop_last()[q] == pages[q]);
        }
        lemma_find_loc_absent(pages.drop_last(), id);
    }
}

/// The item found by id is one of the document's items.
pub proof fn lemma_found_in_all_items(pages: Seq<PageModel>, id: Seq<char>)
    requires
        item_by_id(pages, id) is Some,
    ensures
        all_items(pages).contains(item_by_id(pages, id).unwrap()),
    decreases pages.len(),
{
    lemma_find_loc(pages, id);
    let (p, i) = find_loc(pages, id).unwrap();
    if p < pages.len() - 1 {
        assert forall|q: int| 0 <= q < p implies #[trigger] find_in(pages.drop_last()[q].items, id) is None by {
            assert(pages.drop_last()[q] == pages[q]);
        }
        assert(pages.drop_last()[p] == pages[p]);
        lemma_find_loc_first(pages.drop_last(), id, p, i);
        lemma_found_in_all_items(pages.drop_last(), id);
        let it = item_by_id(pages, id).unwrap();
        let k = choose|k: int| 0 <= k < all_items(pages.drop_last()).len() && all_items(pages.drop_last())[k] == it;
        assert(all_items(pages)[k] == it);
    } else {
        let prefix = all_items(pages.drop_last());
        assert(all_items(pages)[prefix.len() + i] == pages.last().items[i]);
    }
}

/// Finds the page and index of the first item with the given id.
pub fn locate(pages: &Vec<Page>, id: &str) -> (r: Option<(usize, usize)>)
    ensures
        match r {
            Some((p, i)) => find_loc(page_models(pages@), id@) == Some((p as int, i as int)),
            None => find_loc(page_models(pages@), id@) is None,
        },
{
    let ghost pm = page_models(pages@);
    let np = pages.len();
    for p in 0..np
        invariant
            np == pages@.len(),
            pm == page_models(pages@),
            forall|q: int| 0 <= q < p ==> #[trigger] find_in(pm[q].items, id@) is None,
    {
        let items = &pages[p].items;
        let ni = items.len();
        for i in 0..ni
            invariant
                ni == items@.len(),
                p < np,
                np == pages@.len(),
                pm == page_models(pages@),
                items@ == pages@[p as int].items@,
                forall|q: int| 0 <= q < p ==> #[trigger] find_in(pm[q].items, id@) is None,
                forall|k: int| 0 <= k < i ==> #[trigger] items@[k].id@ != id@,
        {
            if same_text(items[i].id.as_str(), id) {
                proof {
                    let ims = pm[p as int].items;
                    assert(ims == item_models(items@));
                    assert forall|k: int| 0 <= k < i implies #[trigger] ims[k].id != id@ by {
                        assert(ims[k] == items@[k].model());
                    }
                    lemma_find_in_first(ims, id@, i as int);
                    lemma_find_loc_first(pm, id@, p as int, i as int);
                }
                return Some((p, i));
            }
        }
        proof {
            let ims = pm[p as int].items;
            assert forall|k: int| 0 <= k < ims.len() implies #[trigger] ims[k].id != id@ by {
                assert(ims[k] == items@[k].model());
            }
            lemma_find_in_absent(ims, id@);
        }
    }
    proof {
        lemma_find_loc_absent(pm, id@);
    }
    None
}

/// The text frame of the first item with the given id.
pub fn chain_frame_textbox<'a>(doc: &'a Document, id: &str) -> (r: Option<&'a TextBox>)
    ensures
        match r {
            Some(tb) => box_by_id(doc.model().pages, id@) == Some(tb.model()),
            None => box_by_id(doc.model().pages, id@) is None,
        },
{
    match locate(&doc.pages, id) {
        Some((p, i)) => {
            proof {
                lemma_find_loc(doc.model().pages, id@);
                assert(doc.model().pages[p as int].items[i as int] == doc.pages@[p as int].items@[i as int].model());
            }
            match &doc.pages[p].items[i].content {
                ItemContent::Text(tb) => Some(tb),
                _ => None,
            }
        },
        None => None,
    }
}

/// The frame belongs to a chain of linked frames.
pub open spec fn in_chain(pages: Seq<PageModel>, id: Seq<char>) -> bool {
    match box_by_id(pages, id) {
        Some(b) => b.frame.next_frame_id is Some || b.frame.prev_frame_id is Some,
        None => false,
    }
}

pub fn is_in_chain(doc: &Document, id: &str) -> (r: bool)
    ensures
        r == in_chain(doc.model().pages, id@),
{
    match chain_frame_textbox(doc, id) {
        Some(tb) => tb.next_frame_id.is_some() || tb.prev_frame_id.is_some(),
        None => false,
    }
}

fn clone_link(o: &Option<String>) -> (r: Option<String>)
    ensures
        r == *o,
{
    match o {
        Some(s) => Some(s.clone()),
        None => None,
    }
}

fn next_link(doc: &Document, id: &str) -> (r: Option<String>)
    ensures
        crate::text_box::opt_view(r) == next_of(doc.model().pages, id@),
{
    match chain_frame_textbox(doc, id) {
        Some(tb) => clone_link(&tb.next_frame_id),
        None => None,
    }
}

fn prev_link(doc: &Document, id: &str) -> (r: Option<String>)
    ensures
        crate::text_box::opt_view(r) == prev_of(doc.model().pages, id@),
{
    match chain_frame_textbox(doc, id) {
        Some(tb) => clone_link(&tb.prev_frame_id),
        None => None,
    }
}

// ── Walking a chain ──────────────────────────────────────────────────────────

pub open spec fn ids_view(v: Seq<String>) -> Seq<Seq<char>> {
    v.map_values(|s: String| s@)
}

/// `w` walks backwards from `w[0]` through the previous-frame links, never
/// visiting a frame twice.
pub open spec fn is_prev_walk(pages: Seq<PageModel>, w: Seq<Seq<char>>) -> bool {
    &&& w.len() > 0
    &&& w.no_duplicates()
    &&& forall|k: int| 0 <= k < w.len() - 1 ==> prev_of(pages, #[trigger] w[k]) == Some(w[k + 1])
}

/// `r` is where the backward walk from `start` ends: at a frame with no
/// previous frame, or at the first frame it would visit twice.
pub open spec fn is_chain_root_of(pages: Seq<PageModel>, start: Seq<char>, r: Seq<char>) -> bool {
    exists|w: Seq<Seq<char>>|
        #![trigger is_prev_walk(pages, w)]
        is_prev_walk(pages, w) && w[0] == start && ((prev_of(pages, w.last()) is None && r
            == w.last()) || (prev_of(pages, w.last()) == Some(r) && w.contains(r)))
}

/// `c` is the chain read forwards from `root` through the next-frame links:
/// it stops at a frame with no next frame, or before a frame already in it.
pub open spec fn is_chain_from(pages: Seq<PageModel>, root: Seq<char>, c: Seq<Seq<char>>) -> bool {
    &&& c.len() > 0
    &&& c[0] == root
    &&& c.no_duplicates()
    &&& forall|k: int| 0 <= k < c.len() - 1 ==> next_of(pages, #[trigger] c[k]) == Some(c[k + 1])
    &&& match next_of(pages, c.last()) {
        Some(x) => c.contains(x),
        None => true,
    }
}

/// The first frame of the chain that `start` belongs to.
pub open spec fn chain_root(pages: Seq<PageModel>, start: Seq<char>) -> Seq<char> {
    choose|r: Seq<char>| is_chain_root_of(pages, start, r)
}

proof fn lemma_walk_prefix(pages: Seq<PageModel>, w1: Seq<Seq<char>>, w2: Seq<Seq<char>>, k: int)
    requires
        is_prev_walk(pages, w1),
        is_prev_walk(pages, w2),
        w1[0] == w2[0],
        0 <= k < w1.len(),
        k < w2.len(),
    ensures
        w1[k] == w2[k],
    decreases k,
{
    if k > 0 {
        lemma_walk_prefix(pages, w1, w2, k - 1);
        assert(prev_of(pages, w1[k - 1]) == Some(w1[k]));
        assert(prev_of(pages, w2[k - 1]) == Some(w2[k]));
    }
}

/// A shorter walk that ends where the walk would revisit a frame cannot be
/// the start of a longer one.
proof fn lemma_walk_not_shorter(
    pages: Seq<PageModel>,
    w1: Seq<Seq<char>>,
    w2: Seq<Seq<char>>,
    r1: Seq<char>,
)
    requires
        is_prev_walk(pages, w1),
        is_prev_walk(pages, w2),
        w1[0] == w2[0],
        (prev_of(pages, w1.last()) is None && r1 == w1.last()) || (prev_of(pages, w1.last())
            == Some(r1) && w1.contains(r1)),
    ensures
        w2.len() <= w1.len(),
{
    if w2.len() > w1.len() {
        let n = w1.len() as int;
        lemma_walk_prefix(pages, w1, w2, n - 1);
        assert(prev_of(pages, w2[n - 1]) == Some(w2[n]));
        let j = choose|j: int| 0 <= j < w1.len() && w1[j] == r1;
        lemma_walk_prefix(pages, w1, w2, j);
        assert(w2[j] == w2[n]);
    }
}

/// The backward walk from a frame ends at one root only.
pub proof fn lemma_chain_root(pages: Seq<PageModel>, start: Seq<char>, r: Seq<char>)
    requires
        is_chain_root_of(pages, start, r),
    ensures
        chain_root(pages, start) == r,
{
    let r2 = chain_root(pages, start);
    assert(is_chain_root_of(pages, start, r2));
    let w1 = choose|w: Seq<Seq<char>>|
        #![trigger is_prev_walk(pages, w)]
        is_prev_walk(pages, w) && w[0] == start && ((prev_of(pages, w.last()) is None && r
            == w.last()) || (prev_of(pages, w.last()) == Some(r) && w.contains(r)));
    let w2 = choose|w: Seq<Seq<char>>|
        #![trigger is_prev_walk(pages, w)]
        is_prev_walk(pages, w) && w[0] == start && ((prev_of(pages, w.last()) is None && r2
            == w.last()) || (prev_of(pages, w.last()) == Some(r2) && w.contains(r2)));
    lemma_walk_not_shorter(pages, w1, w2, r);
    lemma_walk_not_shorter(pages, w2, w1, r2);
    lemma_walk_prefix(pages, w1, w2, w1.len() - 1);
}

pub open spec fn prev_value(it: ItemModel) -> Seq<char> {
    match it.content {
        ContentModel::Text(b) => match b.frame.prev_frame_id {
            Some(x) => x,
            None => Seq::empty(),
        },
        _ => Seq::empty(),
    }
}

pub open spec fn next_value(it: ItemModel) -> Seq<char> {
    match it.content {
        ContentModel::Text(b) => match b.frame.next_frame_id {
            Some(x) => x,
            None => Seq::empty(),
        },
        _ => Seq::empty(),
    }
}

proof fn lemma_distinct_within<A>(s: Seq<A>, t: Seq<A>)
    requires
        s.no_duplicates(),
        forall|k: int| 0 <= k < s.len() ==> t.contains(#[trigger] s[k]),
    ensures
        s.len() <= t.len(),
{
    s.unique_seq_to_set();
    vstd::seq_lib::seq_to_set_is_finite(t);
    assert(s.to_set().subset_of(t.to_set())) by {
        assert forall|x: A| s.to_set().contains(x) implies t.to_set().contains(x) by {
            let k = choose|k: int| 0 <= k < s.len() && s[k] == x;
            assert(t.contains(s[k]));
        }
    }
    vstd::set_lib::lemma_len_subset(s.to_set(), t.to_set());
    t.lemma_cardinality_of_set();
}

proof fn lemma_prev_link_listed(pages: Seq<PageModel>, id: Seq<char>)
    requires
        prev_of(pages, id) is Some,
    ensures
        all_items(pages).map_values(|it: ItemModel| prev_value(it)).contains(prev_of(pages, id).unwrap()),
{
    lemma_found_in_all_items(pages, id);
    let it = item_by_id(pages, id).unwrap();
    let all = all_items(pages);
    let k = choose|k: int| 0 <= k < all.len() && all[k] == it;
    assert(all.map_values(|it: ItemModel| prev_value(it))[k] == prev_value(it));
}

proof fn lemma_next_link_listed(pages: Seq<PageModel>, id: Seq<char>)
    requires
        next_of(pages, id) is Some,
    ensures
        all_items(pages).map_values(|it: ItemModel| next_value(it)).contains(next_of(pages, id).unwrap()),
{
    lemma_found_in_all_items(pages, id);
    let it = item_by_id(pages, id).unwrap();
    let all = all_items(pages);
    let k = choose|k: int| 0 <= k < all.len() && all[k] == it;
    assert(all.map_values(|it: ItemModel| next_value(it))[k] == next_value(it));
}

pub(crate) fn contains_id(v: &Vec<String>, s: &str) -> (r: bool)
    ensures
        r == ids_view(v@).contains(s@),
{
    let n = v.len();
    for i in 0..n
        invariant
            n == v@.len(),
            forall|k: int| 0 <= k < i ==> ids_view(v@)[k] != s@,
    {
        if same_text(v[i].as_str(), s) {
            assert(ids_view(v@)[i as int] == s@);
            return true;
        }
    }
    false
}

/// Follows previous-frame links from `start_id` to the first frame of its
/// chain, stopping at a cycle.
pub fn find_chain_root(doc: &Document, start_id: &str) -> (r: String)
    ensures
        is_chain_root_of(doc.model().pages, start_id@, r@),
{
    let ghost pages = doc.model().pages;
    let ghost links = all_items(pages).map_values(|it: ItemModel| prev_value(it));
    let ghost n = links.len();
    let mut current = start_id.to_owned();
    let mut visited: Vec<String> = Vec::new();
    loop
        invariant
            pages == doc.model().pages,
            links == all_items(pages).map_values(|it: ItemModel| prev_value(it)),
            n == links.len(),
            ids_view(visited@).no_duplicates(),
            visited@.len() == 0 ==> current@ == start_id@,
            visited@.len() > 0 ==> is_prev_walk(pages, ids_view(visited@)) && ids_view(visited@)[0]
                == start_id@ && prev_of(pages, ids_view(visited@).last()) == Some(current@),
            forall|k: int|
                1 <= k < visited@.len() ==> links.contains(#[trigger] ids_view(visited@)[k]),
            visited@.len() > 0 ==> links.contains(current@),
            visited@.len() <= n + 1,
        decreases n + 1 - visited@.len(),
    {
        if contains_id(&visited, current.as_str()) {
            assert(visited@.len() > 0);
            return current;
        }
        let ghost before = ids_view(visited@);
        let cur_copy = current.clone();
        visited.push(cur_copy);
        let ghost w = ids_view(visited@);
        assert(w =~= before.push(current@));
        proof {
            assert forall|k: int| 1 <= k < w.len() implies links.contains(#[trigger] w[k]) by {
                if k < before.len() {
                    assert(w[k] == before[k]);
                }
            }
            assert(w.no_duplicates()) by {
                assert forall|i: int, j: int| 0 <= i < j < w.len() implies w[i] != w[j] by {
                    if j == w.len() - 1 {
                        assert(w[i] == before[i]);
                    } else {
                        assert(w[i] == before[i] && w[j] == before[j]);
                    }
                }
            }
            assert(is_prev_walk(pages, w)) by {
                assert forall|k: int| 0 <= k < w.len() - 1 implies prev_of(pages, #[trigger] w[k]) == Some(w[k + 1]) by {
                    if k < before.len() - 1 {
                        assert(w[k] == before[k] && w[k + 1] == before[k + 1]);
                    } else {
                        assert(w[k] == before.last());
                    }
                }
            }
            assert forall|k: int| 0 <= k < w.drop_first().len() implies links.contains(
                #[trigger] w.drop_first()[k],
            ) by {
                assert(w.drop_first()[k] == w[k + 1]);
            }
            lemma_distinct_within(w.drop_first(), links);
        }
        match prev_link(doc, current.as_str()) {
            Some(p) => {
                proof {
                    lemma_prev_link_listed(pages, current@);
                }
                current = p;
            },
            None => {
                let r = visited.pop().unwrap();
                proof {
                    assert(w.last() == r@);
                    assert(is_prev_walk(pages, w) && w[0] == start_id@);
                }
                return r;
            },
        }
    }
}

/// The chain of frames read forwards from `root_id`.
pub fn collect_chain(doc: &Document, root_id: &str) -> (r: Vec<String>)
    ensures
        is_chain_from(doc.model().pages, root_id@, ids_view(r@)),
{
    let ghost pages = doc.model().pages;
    let ghost links = all_items(pages).map_values(|it: ItemModel| next_value(it));
    let ghost n = links.len();
    let mut chain: Vec<String> = Vec::new();
    chain.push(root_id.to_owned());
    let mut current = root_id.to_owned();
    assert(ids_view(chain@) =~= seq![root_id@]);
    loop
        invariant
            pages == doc.model().pages,
            links == all_items(pages).map_values(|it: ItemModel| next_value(it)),
            n == links.len(),
            chain@.len() > 0,
            ids_view(chain@)[0] == root_id@,
            ids_view(chain@).no_duplicates(),
            ids_view(chain@).last() == current@,
            forall|k: int|
                0 <= k < chain@.len() - 1 ==> next_of(pages, #[trigger] ids_view(chain@)[k]) == Some(
                    ids_view(chain@)[k + 1],
                ),
            forall|k: int|
                1 <= k < chain@.len() ==> links.contains(#[trigger] ids_view(chain@)[k]),
            chain@.len() <= n + 1,
        decreases n + 1 - chain@.len(),
    {
        let next = next_link(doc, current.as_str());
        match next {
            Some(nx) => {
                if contains_id(&chain, nx.as_str()) {
                    return chain;
                }
                proof {
                    lemma_next_link_listed(pages, current@);
                }
                let ghost before = ids_view(chain@);
                chain.push(nx.clone());
                let ghost c = ids_view(chain@);
                assert(c =~= before.push(nx@));
                proof {
                    assert forall|k: int| 1 <= k < c.len() implies links.contains(#[trigger] c[k]) by {
                        if k < before.len() {
                            assert(c[k] == before[k]);
                        }
                    }
                    assert(c.no_duplicates()) by {
                        assert forall|i: int, j: int| 0 <= i < j < c.len() implies c[i] != c[j] by {
                            if j == c.len() - 1 {
                                assert(c[i] == before[i]);
                            } else {
                                assert(c[i] == before[i] && c[j] == before[j]);
                            }
                        }
                    }
                    assert forall|k: int| 0 <= k < c.len() - 1 implies next_of(pages, #[trigger] c[k])
                        == Some(c[k + 1]) by {
                        if k < before.len() - 1 {
                            assert(c[k] == before[k] && c[k + 1] == before[k + 1]);
                        } else {
                            assert(c[k] == before.last());
                        }
                    }
                    assert forall|k: int| 0 <= k < c.drop_first().len() implies links.contains(
                        #[trigger] c.drop_first()[k],
                    ) by {
                        assert(c.drop_first()[k] == c[k + 1]);
                    }
                    lemma_distinct_within(c.drop_first(), links);
                }
                current = nx;
            },
            None => {
                return chain;
            },
        }
    }
}

// ── Changing frames found by id ──────────────────────────────────────────────

/// The pages with the first item of the given id replaced by what `f` makes of it.
pub open spec fn update_item(
    pages: Seq<PageModel>,
    id: Seq<char>,
    f: spec_fn(ItemModel) -> ItemModel,
) -> Seq<PageModel> {
    match find_loc(pages, id) {
        Some((p, i)) => pages.update(
            p,
            PageModel { items: pages[p].items.update(i, f(pages[p].items[i])), ..pages[p] },
        ),
        None => pages,
    }
}

/// The pages with the text frame of the first item of the given id replaced by
/// what `g` makes of it; nothing changes if that item is not a text frame.
pub open spec fn update_box(
    pages: Seq<PageModel>,
    id: Seq<char>,
    g: spec_fn(BoxModel) -> BoxModel,
) -> Seq<PageModel> {
    update_item(
        pages,
        id,
        |it: ItemModel|
            match it.content {
                ContentModel::Text(b) => ItemModel { content: ContentModel::Text(g(b)), ..it },
                _ => it,
            },
    )
}

/// A frame given new text, spans and offset; the cursor and anchor are kept
/// inside the new text.
pub open spec fn with_content(
    b: BoxModel,
    text: Seq<char>,
    attrs: Seq<TextAttribute>,
    offset: usize,
) -> BoxModel {
    BoxModel {
        state: EditState {
            text,
            attributes: attrs,
            cursor_pos: if b.state.cursor_pos > byte_len(text) {
                byte_len(text) as usize
            } else {
                b.state.cursor_pos
            },
            selection_anchor: match b.state.selection_anchor {
                Some(a) => if a > byte_len(text) {
                    None
                } else {
                    Some(a)
                },
                None => None,
            },
            ..b.state
        },
        frame: FrameProps { text_offset: offset, ..b.frame },
        ..b
    }
}

/// A frame given new chain links.
pub open spec fn with_links(b: BoxModel, prev: Option<Seq<char>>, next: Option<Seq<char>>) -> BoxModel {
    BoxModel { frame: FrameProps { prev_frame_id: prev, next_frame_id: next, ..b.frame }, ..b }
}

pub open spec fn with_pages(d: DocModel, pages: Seq<PageModel>) -> DocModel {
    DocModel { pages, ..d }
}

/// Gives the text frame with the given id a new text, spans and offset.
pub fn set_chain_frame_content(
    doc: &mut Document,
    id: &str,
    text: String,
    attributes: Vec<TextAttribute>,
    text_offset: usize,
)
    ensures
        final(doc).model() == with_pages(
            old(doc).model(),
            update_box(
                old(doc).model().pages,
                id@,
                |b: BoxModel| with_content(b, text@, attributes@, text_offset),
            ),
        ),
{
    let ghost old_pages = doc.pages@;
    match locate(&doc.pages, id) {
        Some((p, i)) => {
            proof {
                lemma_find_loc(doc.model().pages, id@);
            }
            let ghost old_page = doc.pages@[p as int];
            let ghost old_item = old_page.items@[i as int];
            let item = &mut doc.pages[p].items[i];
            match &mut item.content {
                ItemContent::Text(tb) => {
                    let len = str_byte_len(text.as_str());
                    tb.text = text;
                    tb.attributes = attributes;
                    tb.text_offset = text_offset;
                    if tb.cursor_pos > len {
                        tb.cursor_pos = len;
                    }
                    match tb.selection_anchor {
                        Some(a) => {
                            if a > len {
                                tb.selection_anchor = None;
                            }
                        },
                        None => {},
                    }
                },
                _ => {},
            }
            proof {
                let new_page = doc.pages@[p as int];
                assert(new_page.items@ == old_page.items@.update(i as int, new_page.items@[i as int]));
                assert(item_models(new_page.items@) =~= item_models(old_page.items@).update(
                    i as int,
                    new_page.items@[i as int].model(),
                ));
                assert(page_models(doc.pages@) =~= page_models(old_pages).update(
                    p as int,
                    new_page.model(),
                ));
            }
        },
        None => {},
    }
}

/// Sets the chain links of the text frame with the given id.
fn set_links_of(doc: &mut Document, id: &str, prev: Option<String>, next: Option<String>)
    ensures
        final(doc).model() == with_pages(
            old(doc).model(),
            update_box(
                old(doc).model().pages,
                id@,
                |b: BoxModel|
                    with_links(
                        b,
                        crate::text_box::opt_view(prev),
                        crate::text_box::opt_view(next),
                    ),
            ),
        ),
{
    let ghost old_pages = doc.pages@;
    match locate(&doc.pages, id) {
        Some((p, i)) => {
            proof {
                lemma_find_loc(doc.model().pages, id@);
            }
            let ghost old_page = doc.pages@[p as int];
            let item = &mut doc.pages[p].items[i];
            match &mut item.content {
                ItemContent::Text(tb) => {
                    tb.prev_frame_id = prev;
                    tb.next_frame_id = next;
                },
                _ => {},
            }
            proof {
                let new_page = doc.pages@[p as int];
                assert(item_models(new_page.items@) =~= item_models(old_page.items@).update(
                    i as int,
                    new_page.items@[i as int].model(),
                ));
                assert(page_models(doc.pages@) =~= page_models(old_pages).update(
                    p as int,
                    new_page.model(),
                ));
            }
        },
        None => {},
    }
}

/// The pages after the frames `ids[..k]` are linked in that order.
pub open spec fn linked_upto(pages: Seq<PageModel>, ids: Seq<Seq<char>>, k: int) -> Seq<PageModel>
    decreases k,
{
    if k <= 0 {
        pages
    } else {
        update_box(
            linked_upto(pages, ids, k - 1),
            ids[k - 1],
            |b: BoxModel|
                with_links(
                    b,
                    if k - 1 > 0 {
                        Some(ids[k - 2])
                    } else {
                        None
                    },
                    if k < ids.len() {
                        Some(ids[k])
                    } else {
                        None
                    },
                ),
        )
    }
}

/// Links the frames `ids` into one chain, in that order: each one's previous
/// and next frames become its neighbours in `ids`.
pub fn set_chain_links(doc: &mut Document, ids: &[String])
    ensures
        final(doc).model() == with_pages(
            old(doc).model(),
            linked_upto(old(doc).model().pages, ids_view(ids@), ids@.len() as int),
        ),
{
    let ghost pages0 = doc.model().pages;
    let n = ids.len();
    for idx in 0..n
        invariant
            n == ids@.len(),
            doc.model() == with_pages(old(doc).model(), linked_upto(pages0, ids_view(ids@), idx as int)),
            pages0 == old(doc).model().pages,
    {
        let prev = if idx > 0 { Some(ids[idx - 1].clone()) } else { None };
        let next = if idx + 1 < n { Some(ids[idx + 1].clone()) } else { None };
        set_links_of(doc, ids[idx].as_str(), prev, next);
        proof {
            let v = ids_view(ids@);
            assert(v[idx as int] == ids@[idx as int]@);
            if idx > 0 {
                assert(v[idx - 1] == ids@[idx - 1]@);
            }
            if idx + 1 < n {
                assert(v[idx + 1] == ids@[idx + 1]@);
            }
            let g = |b: BoxModel|
                with_links(
                    b,
                    crate::text_box::opt_view(prev),
                    crate::text_box::opt_view(next),
                );
            let g2 = |b: BoxModel|
                with_links(
                    b,
                    if idx + 1 - 1 > 0 {
                        Some(v[idx + 1 - 2])
                    } else {
                        None
                    },
                    if idx + 1 < v.len() {
                        Some(v[idx + 1])
                    } else {
                        None
                    },
                );
            assert(g =~= g2);
        }
    }
}

// ── Chain roots ──────────────────────────────────────────────────────────────

/// The item starts a chain: a text frame with a next frame and no previous one.
pub open spec fn is_root_item(it: ItemModel) -> bool {
    match it.content {
        ContentModel::Text(b) => b.frame.prev_frame_id is None && b.frame.next_frame_id is Some,
        _ => false,
    }
}

/// Ids of the items that start chains, in order.
pub open spec fn chain_roots(items: Seq<ItemModel>) -> Seq<Seq<char>>
    decreases items.len(),
{
    if items.len() == 0 {
        Seq::empty()
    } else {
        chain_roots(items.drop_last()) + if is_root_item(items.last()) {
            seq![items.last().id]
        } else {
            Seq::empty()
        }
    }
}

/// Ids of all frames that start a chain, in page order.
pub fn collect_all_chain_roots(doc: &Document) -> (r: Vec<String>)
    ensures
        ids_view(r@) == chain_roots(all_items(doc.model().pages)),
{
    let ghost pm = doc.model().pages;
    let mut out: Vec<String> = Vec::new();
    let np = doc.pages.len();
    for p in 0..np
        invariant
            np == doc.pages@.len(),
            pm == doc.model().pages,
            ids_view(out@) == chain_roots(all_items(pm.take(p as int))),
    {
        let items = &doc.pages[p].items;
        let ni = items.len();
        let ghost base = all_items(pm.take(p as int));
        assert(pm.take(p + 1).drop_last() =~= pm.take(p as int));
        assert(pm[p as int].items == item_models(items@));
        for i in 0..ni
            invariant
                ni == items@.len(),
                pm[p as int].items == item_models(items@),
                ids_view(out@) == chain_roots(base + pm[p as int].items.take(i as int)),
        {
            let ghost before = out@;
            let it = &items[i];
            let ghost im = pm[p as int].items;
            assert(im[i as int] == it.model());
            assert((base + im.take(i + 1)).drop_last() =~= base + im.take(i as int));
            assert((base + im.take(i + 1)).last() == it.model());
            match &it.content {
                ItemContent::Text(tb) => {
                    if tb.prev_frame_id.is_none() && tb.next_frame_id.is_some() {
                        out.push(it.id.clone());
                        assert(ids_view(out@) =~= ids_view(before).push(it.id@));
                    }
                },
                _ => {},
            }
            assert(ids_view(out@) =~= chain_roots(base + im.take(i + 1)));
        }
        assert(pm[p as int].items.take(ni as int) =~= pm[p as int].items);
        assert(all_items(pm.take(p + 1)) == base + pm[p as int].items);
    }
    assert(pm.take(np as int) =~= pm);
    out
}

// ── Chains survive content changes ───────────────────────────────────────────

proof fn lemma_find_in_same_ids(a: Seq<ItemModel>, b: Seq<ItemModel>, x: Seq<char>)
    requires
        a.len() == b.len(),
        forall|k: int| 0 <= k < a.len() ==> #[trigger] a[k].id == b[k].id,
    ensures
        find_in(a, x) == find_in(b, x),
    decreases a.len(),
{
    if a.len() > 0 {
        assert forall|k: int| 0 <= k < a.len() - 1 implies #[trigger] a.drop_last()[k].id == b.drop_last()[k].id by {
            assert(a.drop_last()[k] == a[k] && b.drop_last()[k] == b[k]);
        }
        lemma_find_in_same_ids(a.drop_last(), b.drop_last(), x);
    }
}

/// Two page lists whose items have the same ids at the same places.
pub open spec fn same_ids(a: Seq<PageModel>, b: Seq<PageModel>) -> bool {
    &&& a.len() == b.len()
    &&& forall|p: int|
        0 <= p < a.len() ==> (#[trigger] a[p]).items.len() == b[p].items.len() && forall|k: int|
            0 <= k < a[p].items.len() ==> #[trigger] a[p].items[k].id == b[p].items[k].id
}

proof fn lemma_find_loc_same_ids(a: Seq<PageModel>, b: Seq<PageModel>, x: Seq<char>)
    requires
        same_ids(a, b),
    ensures
        find_loc(a, x) == find_loc(b, x),
    decreases a.len(),
{
    if a.len() > 0 {
        assert(same_ids(a.drop_last(), b.drop_last())) by {
            assert forall|p: int| 0 <= p < a.drop_last().len() implies (#[trigger] a.drop_last()[p]).items.len()
                == b.drop_last()[p].items.len() && forall|k: int|
                0 <= k < a.drop_last()[p].items.len() ==> #[trigger] a.drop_last()[p].items[k].id
                    == b.drop_last()[p].items[k].id by {
                assert(a.drop_last()[p] == a[p] && b.drop_last()[p] == b[p]);
            }
        }
        lemma_find_loc_same_ids(a.drop_last(), b.drop_last(), x);
        assert(a.last() == a[a.len() - 1] && b.last() == b[b.len() - 1]);
        lemma_find_in_same_ids(a.last().items, b.last().items, x);
    }
}

/// `g` changes neither link of a frame.
pub open spec fn keeps_links(g: spec_fn(BoxModel) -> BoxModel) -> bool {
    forall|b: BoxModel|
        (#[trigger] g(b)).frame.next_frame_id == b.frame.next_frame_id && g(b).frame.prev_frame_id
            == b.frame.prev_frame_id
}

/// Changing a frame without touching its links leaves every chain as it was.
pub proof fn lemma_update_keeps_links(
    pages: Seq<PageModel>,
    id: Seq<char>,
    g: spec_fn(BoxModel) -> BoxModel,
    x: Seq<char>,
)
    requires
        keeps_links(g),
    ensures
        same_ids(update_box(pages, id, g), pages),
        next_of(update_box(pages, id, g), x) == next_of(pages, x),
        prev_of(update_box(pages, id, g), x) == prev_of(pages, x),
        find_loc(update_box(pages, id, g), x) == find_loc(pages, x),
{
    let np = update_box(pages, id, g);
    lemma_find_loc(pages, id);
    assert(same_ids(np, pages)) by {
        match find_loc(pages, id) {
            Some((p, i)) => {
                assert forall|q: int| 0 <= q < np.len() implies (#[trigger] np[q]).items.len()
                    == pages[q].items.len() && forall|k: int|
                    0 <= k < np[q].items.len() ==> #[trigger] np[q].items[k].id == pages[q].items[k].id by {
                    if q == p {
                        assert forall|k: int| 0 <= k < np[q].items.len() implies #[trigger] np[q].items[k].id
                            == pages[q].items[k].id by {}
                    }
                }
            },
            None => {},
        }
    }
    lemma_find_loc_same_ids(np, pages, x);
    lemma_find_loc(pages, x);
}

/// Changing one frame keeps every item's id where it was.
pub proof fn lemma_update_same_ids(pages: Seq<PageModel>, id: Seq<char>, g: spec_fn(BoxModel) -> BoxModel)
    ensures
        same_ids(update_box(pages, id, g), pages),
{
    let np = update_box(pages, id, g);
    lemma_find_loc(pages, id);
    match find_loc(pages, id) {
        Some((p, i)) => {
            assert forall|q: int| 0 <= q < np.len() implies (#[trigger] np[q]).items.len()
                == pages[q].items.len() && forall|k: int|
                0 <= k < np[q].items.len() ==> #[trigger] np[q].items[k].id == pages[q].items[k].id by {
                if q == p {
                    assert forall|k: int| 0 <= k < np[q].items.len() implies #[trigger] np[q].items[k].id
                        == pages[q].items[k].id by {}
                }
            }
        },
        None => {},
    }
}

/// What a frame looks like after one frame was changed by `g`.
pub proof fn lemma_box_after_update(
    pages: Seq<PageModel>,
    id: Seq<char>,
    g: spec_fn(BoxModel) -> BoxModel,
    x: Seq<char>,
)
    ensures
        box_by_id(update_box(pages, id, g), x) == (if x == id {
            match box_by_id(pages, id) {
                Some(b) => Some(g(b)),
                None => None,
            }
        } else {
            box_by_id(pages, x)
        }),
        find_loc(update_box(pages, id, g), x) == find_loc(pages, x),
{
    let np = update_box(pages, id, g);
    lemma_update_same_ids(pages, id, g);
    lemma_find_loc_same_ids(np, pages, x);
    lemma_find_loc(pages, id);
    lemma_find_loc(pages, x);
}

/// A chain is determined by where it starts.
pub proof fn lemma_chain_unique(pages: Seq<PageModel>, root: Seq<char>, c1: Seq<Seq<char>>, c2: Seq<Seq<char>>)
    requires
        is_chain_from(pages, root, c1),
        is_chain_from(pages, root, c2),
    ensures
        c1 == c2,
{
    assert forall|k: int| 0 <= k < c1.len() && k < c2.len() implies c1[k] == c2[k] by {
        lemma_chain_prefix(pages, root, c1, c2, k);
    }
    if c1.len() < c2.len() {
        let l = c1.len() as int;
        assert(next_of(pages, c1.last()) == Some(c2[l])) by {
            assert(c1.last() == c2[l - 1]);
        }
        let j = choose|j: int| 0 <= j < c1.len() && c1[j] == c2[l];
        assert(c2[j] == c2[l]);
    } else if c2.len() < c1.len() {
        let l = c2.len() as int;
        assert(next_of(pages, c2.last()) == Some(c1[l])) by {
            assert(c2.last() == c1[l - 1]);
        }
        let j = choose|j: int| 0 <= j < c2.len() && c2[j] == c1[l];
        assert(c1[j] == c1[l]);
    }
    assert(c1 =~= c2);
}

proof fn lemma_chain_prefix(
    pages: Seq<PageModel>,
    root: Seq<char>,
    c1: Seq<Seq<char>>,
    c2: Seq<Seq<char>>,
    k: int,
)
    requires
        is_chain_from(pages, root, c1),
        is_chain_from(pages, root, c2),
        0 <= k < c1.len(),
        k < c2.len(),
    ensures
        c1[k] == c2[k],
    decreases k,
{
    if k > 0 {
        lemma_chain_prefix(pages, root, c1, c2, k - 1);
        assert(next_of(pages, c1[k - 1]) == Some(c1[k]));
        assert(next_of(pages, c2[k - 1]) == Some(c2[k]));
    }
}

/// The chain that starts at `root`.
pub open spec fn chain_of(pages: Seq<PageModel>, root: Seq<char>) -> Seq<Seq<char>> {
    choose|c: Seq<Seq<char>>| is_chain_from(pages, root, c)
}

pub proof fn lemma_chain_of(pages: Seq<PageModel>, root: Seq<char>, c: Seq<Seq<char>>)
    requires
        is_chain_from(pages, root, c),
    ensures
        chain_of(pages, root) == c,
{
    lemma_chain_unique(pages, root, chain_of(pages, root), c);
}

pub proof fn lemma_same_links_same_chain(a: Seq<PageModel>, b: Seq<PageModel>, root: Seq<char>, c: Seq<Seq<char>>)
    requires
        forall|x: Seq<char>| #[trigger] next_of(a, x) == next_of(b, x),
        is_chain_from(a, root, c),
    ensures
        is_chain_from(b, root, c),
{
    assert forall|k: int| 0 <= k < c.len() - 1 implies next_of(b, #[trigger] c[k]) == Some(c[k + 1]) by {
        assert(next_of(a, c[k]) == next_of(b, c[k]));
    }
    assert(next_of(a, c.last()) == next_of(b, c.last()));
}

// ── Emptying downstream frames ───────────────────────────────────────────────

/// A frame emptied of text and spans, keeping its offset.
pub open spec fn emptied_box(b: BoxModel) -> BoxModel {
    with_content(b, Seq::empty(), Seq::empty(), b.frame.text_offset)
}

/// The pages after the frames `ids[..k]` are emptied in turn.
pub open spec fn emptied_upto(pages: Seq<PageModel>, ids: Seq<Seq<char>>, k: int) -> Seq<PageModel>
    decreases k,
{
    if k <= 0 {
        pages
    } else {
        update_box(emptied_upto(pages, ids, k - 1), ids[k - 1], |b: BoxModel| emptied_box(b))
    }
}

/// The frames after the first one in the chains of `roots`, chain by chain.
pub open spec fn downstream(pages: Seq<PageModel>, roots: Seq<Seq<char>>) -> Seq<Seq<char>>
    decreases roots.len(),
{
    if roots.len() == 0 {
        Seq::empty()
    } else {
        downstream(pages, roots.drop_last()) + chain_of(pages, roots.last()).drop_first()
    }
}

proof fn lemma_emptied_keeps_links(pages: Seq<PageModel>, ids: Seq<Seq<char>>, k: int, x: Seq<char>)
    ensures
        next_of(emptied_upto(pages, ids, k), x) == next_of(pages, x),
        prev_of(emptied_upto(pages, ids, k), x) == prev_of(pages, x),
    decreases k,
{
    if k > 0 {
        lemma_emptied_keeps_links(pages, ids, k - 1, x);
        lemma_update_keeps_links(emptied_upto(pages, ids, k - 1), ids[k - 1], |b: BoxModel| emptied_box(b), x);
    }
}

/// Empties every frame of every chain except the first, which holds the
/// chain's whole text; used before saving.
pub fn strip_chain_downstream_texts(doc: &mut Document)
    ensures
        final(doc).model() == with_pages(
            old(doc).model(),
            emptied_upto(
                old(doc).model().pages,
                downstream(old(doc).model().pages, chain_roots(all_items(old(doc).model().pages))),
                downstream(old(doc).model().pages, chain_roots(all_items(old(doc).model().pages))).len() as int,
            ),
        ),
{
    let ghost pages0 = doc.model().pages;
    let roots = collect_all_chain_roots(doc);
    let ghost rv = ids_view(roots@);
    let ghost mut done: Seq<Seq<char>> = Seq::empty();
    let nr = roots.len();
    for ri in 0..nr
        invariant
            nr == roots@.len(),
            rv == ids_view(roots@),
            doc.model() == with_pages(old(doc).model(), emptied_upto(pages0, done, done.len() as int)),
            done == downstream(pages0, rv.take(ri as int)),
            pages0 == old(doc).model().pages,
    {
        let chain = collect_chain(doc, roots[ri].as_str());
        let ghost cv = ids_view(chain@);
        proof {
            assert forall|x: Seq<char>| #[trigger] next_of(doc.model().pages, x) == next_of(pages0, x) by {
                lemma_emptied_keeps_links(pages0, done, done.len() as int, x);
            }
            lemma_same_links_same_chain(doc.model().pages, pages0, roots@[ri as int]@, cv);
            lemma_chain_of(pages0, roots@[ri as int]@, cv);
            assert(rv.take(ri + 1).drop_last() =~= rv.take(ri as int));
            assert(rv.take(ri + 1).last() == roots@[ri as int]@);
        }
        let nc = chain.len();
        let ghost done0 = done;
        for ci in 1..nc
            invariant
                nc == chain@.len(),
                nc >= 1,
                cv == ids_view(chain@),
                doc.model() == with_pages(old(doc).model(), emptied_upto(pages0, done, done.len() as int)),
                done == done0 + cv.drop_first().take(ci - 1),
        {
            let offset = match chain_frame_textbox(doc, chain[ci].as_str()) {
                Some(tb) => tb.text_offset,
                None => 0,
            };
            let ghost cur = doc.model().pages;
            set_chain_frame_content(doc, chain[ci].as_str(), String::new(), Vec::new(), offset);
            proof {
                let id = chain@[ci as int]@;
                let g1 = |b: BoxModel| with_content(b, Seq::<char>::empty(), Seq::<crate::format::TextAttribute>::empty(), offset);
                let g2 = |b: BoxModel| emptied_box(b);
                lemma_find_loc(cur, id);
                assert(update_box(cur, id, g1) == update_box(cur, id, g2)) by {
                    match find_loc(cur, id) {
                        Some((p, i)) => {
                            match cur[p].items[i].content {
                                ContentModel::Text(b) => {
                                    assert(box_by_id(cur, id) == Some(b));
                                    assert(g1(b) == g2(b));
                                },
                                _ => {},
                            }
                        },
                        None => {},
                    }
                }
                let done1 = done.push(id);
                assert(done1.take(done.len() as int) =~= done);
                assert(done.take(done.len() as int) =~= done);
                assert(emptied_upto(pages0, done1, done.len() as int) == emptied_upto(pages0, done, done.len() as int)) by {
                    lemma_emptied_prefix(pages0, done1, done, done.len() as int);
                }
                assert(cv.drop_first()[ci - 1] == id);
                assert(done0 + cv.drop_first().take(ci as int) =~= done1);
                done = done1;
            }
        }
        proof {
            assert(cv.drop_first().take(nc - 1) =~= cv.drop_first());
        }
    }
    proof {
        assert(rv.take(nr as int) =~= rv);
    }
}

proof fn lemma_emptied_prefix(pages: Seq<PageModel>, a: Seq<Seq<char>>, b: Seq<Seq<char>>, k: int)
    requires
        0 <= k <= a.len(),
        k <= b.len(),
        a.take(k) == b.take(k),
    ensures
        emptied_upto(pages, a, k) == emptied_upto(pages, b, k),
    decreases k,
{
    if k > 0 {
        assert(a.take(k - 1) =~= a.take(k).take(k - 1));
        assert(b.take(k - 1) =~= b.take(k).take(k - 1));
        lemma_emptied_prefix(pages, a, b, k - 1);
        assert(a[k - 1] == a.take(k)[k - 1]);
        assert(b[k - 1] == b.take(k)[k - 1]);
    }
}


// ── Linking frames makes a chain ─────────────────────────────────────────────

/// The links that `set_chain_links` gives the `j`-th of `ids`.
pub open spec fn linked_box(b: BoxModel, ids: Seq<Seq<char>>, j: int) -> BoxModel {
    with_links(
        b,
        if j > 0 {
            Some(ids[j - 1])
        } else {
            None
        },
        if j + 1 < ids.len() {
            Some(ids[j + 1])
        } else {
            None
        },
    )
}

proof fn lemma_linked_box(pages: Seq<PageModel>, ids: Seq<Seq<char>>, k: int, j: int)
    requires
        ids.no_duplicates(),
        0 <= j < ids.len(),
        0 <= k <= ids.len(),
    ensures
        box_by_id(linked_upto(pages, ids, k), ids[j]) == (if j < k {
            match box_by_id(pages, ids[j]) {
                Some(b) => Some(linked_box(b, ids, j)),
                None => None,
            }
        } else {
            box_by_id(pages, ids[j])
        }),
    decreases k,
{
    if k > 0 {
        lemma_linked_box(pages, ids, k - 1, j);
        let g = |b: BoxModel|
            with_links(
                b,
                if k - 1 > 0 {
                    Some(ids[k - 2])
                } else {
                    None
                },
                if k < ids.len() {
                    Some(ids[k])
                } else {
                    None
                },
            );
        lemma_box_after_update(linked_upto(pages, ids, k - 1), ids[k - 1], g, ids[j]);
        if j != k - 1 {
            assert(ids[j] != ids[k - 1]);
        }
    }
}

/// Law: linking distinct text frames in a list order makes them one chain
/// in that order, read forwards from the first; each frame's previous frame
/// is the one before it in the list.
pub proof fn law_linked_frames_form_chain(pages: Seq<PageModel>, ids: Seq<Seq<char>>)
    requires
        ids.len() > 0,
        ids.no_duplicates(),
        forall|k: int| 0 <= k < ids.len() ==> (#[trigger] box_by_id(pages, ids[k])) is Some,
    ensures
        is_chain_from(linked_upto(pages, ids, ids.len() as int), ids[0], ids),
        prev_of(linked_upto(pages, ids, ids.len() as int), ids[0]) is None,
        forall|k: int|
            0 < k < ids.len() ==> prev_of(linked_upto(pages, ids, ids.len() as int), #[trigger] ids[k])
                == Some(ids[k - 1]),
{
    let np = linked_upto(pages, ids, ids.len() as int);
    assert forall|k: int| 0 <= k < ids.len() implies next_of(np, #[trigger] ids[k]) == (if k + 1
        < ids.len() {
        Some(ids[k + 1])
    } else {
        None::<Seq<char>>
    }) && prev_of(np, ids[k]) == (if k > 0 {
        Some(ids[k - 1])
    } else {
        None::<Seq<char>>
    }) by {
        lemma_linked_box(pages, ids, ids.len() as int, k);
        assert(box_by_id(pages, ids[k]) is Some);
    }
    assert(next_of(np, ids.last()) is None) by {
        assert(ids.last() == ids[ids.len() - 1]);
    }
}

} // verus!
