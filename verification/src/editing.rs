//! Document-wide edits: pages, the stacking order of items, borders, and the
//! removal of items.
use vstd::prelude::*;
use crate::chain::{
    box_by_id, chain_of, chain_root, collect_chain, contains_id, find_chain_root, find_loc,
    ids_view, in_chain, is_chain_from, is_in_chain, lemma_chain_of, lemma_chain_root, lemma_find_loc,
    linked_upto, locate, set_chain_frame_content, set_chain_links, update_box, update_item,
    with_content, with_links, with_pages, chain_frame_textbox,
};
use crate::document::{item_models, page_models, DocModel, Document, Item, ItemContent, ItemModel, Page, PageModel};
use crate::format::{clone_attrs, TextAttribute};
use crate::text_box::BoxModel;

verus! {

broadcast use vstd::seq_lib::group_to_multiset_ensures;

// ── Pages ────────────────────────────────────────────────────────────────────

/// Appends an empty page.
pub fn add_page(doc: &mut Document)
    ensures
        final(doc).model() == with_pages(
            old(doc).model(),
            old(doc).model().pages.push(PageModel { items: Seq::empty(), master_page: None }),
        ),
{
    let page = Page::default();
    doc.pages.push(page);
    assert(page_models(doc.pages@) =~= page_models(old(doc).pages@).push(page.model()));
}

/// Removes the page at `idx`, unless it is the only page or there is no
/// such page; says whether it removed one.
pub fn delete_page(doc: &mut Document, idx: usize) -> (r: bool)
    ensures
        r == (old(doc).model().pages.len() > 1 && idx < old(doc).model().pages.len()),
        r ==> final(doc).model() == with_pages(old(doc).model(), old(doc).model().pages.remove(idx as int)),
        !r ==> final(doc).model() == old(doc).model(),
{
    if doc.pages.len() > 1 && idx < doc.pages.len() {
        let _ = doc.pages.remove(idx);
        assert(page_models(doc.pages@) =~= page_models(old(doc).pages@).remove(idx as int));
        true
    } else {
        false
    }
}

// ── Stacking order ───────────────────────────────────────────────────────────

/// A move of one item within its page's stacking order, where later items
/// are drawn on top.
#[derive(Clone, Copy, Debug, PartialEq, Eq, Structural)]
pub enum StackMove {
    ToFront,
    ToBack,
    Forward,
    Backward,
}

/// The items with the one at `pos` moved as `how` says: to the top, to the
/// bottom, one step up or one step down (no step past either end).
pub open spec fn stack_moved(items: Seq<ItemModel>, pos: int, how: StackMove) -> Seq<ItemModel> {
    match how {
        StackMove::ToFront => items.remove(pos).push(items[pos]),
        StackMove::ToBack => items.remove(pos).insert(0, items[pos]),
        StackMove::Forward => if pos + 1 < items.len() {
            items.update(pos, items[pos + 1]).update(pos + 1, items[pos])
        } else {
            items
        },
        StackMove::Backward => if pos > 0 {
            items.update(pos, items[pos - 1]).update(pos - 1, items[pos])
        } else {
            items
        },
    }
}

/// The pages after the first item with the given id is moved as `how` says.
pub open spec fn restacked(pages: Seq<PageModel>, id: Seq<char>, how: StackMove) -> Seq<PageModel> {
    match find_loc(pages, id) {
        Some((p, i)) => pages.update(
            p,
            PageModel { items: stack_moved(pages[p].items, i, how), ..pages[p] },
        ),
        None => pages,
    }
}

/// The pages after the items with the ids `ids` are moved in turn.
pub open spec fn restacked_all(pages: Seq<PageModel>, ids: Seq<Seq<char>>, how: StackMove) -> Seq<
    PageModel,
>
    decreases ids.len(),
{
    if ids.len() == 0 {
        pages
    } else {
        restacked(restacked_all(pages, ids.drop_last(), how), ids.last(), how)
    }
}

fn restack_one(doc: &mut Document, id: &str, how: StackMove)
    ensures
        final(doc).model() == with_pages(old(doc).model(), restacked(old(doc).model().pages, id@, how)),
{
    let ghost old_pages = doc.pages@;
    match locate(&doc.pages, id) {
        Some((p, i)) => {
            proof {
                lemma_find_loc(doc.model().pages, id@);
            }
            let ghost old_page = doc.pages@[p as int];
            let ghost om = item_models(old_page.items@);
            let ghost x = om[i as int];
            let items = &mut doc.pages[p].items;
            match how {
                StackMove::ToFront => {
                    let it = items.remove(i);
                    items.push(it);
                    proof {
                        assert(item_models(items@) =~= om.remove(i as int).push(x));
                    }
                },
                StackMove::ToBack => {
                    let it = items.remove(i);
                    items.insert(0, it);
                    proof {
                        assert(item_models(items@) =~= om.remove(i as int).insert(0, x));
                    }
                },
                StackMove::Forward => {
                    if i < items.len() - 1 {
                        let b = items.remove(i + 1);
                        items.insert(i, b);
                        proof {
                            assert(item_models(items@) =~= om.update(i as int, om[i + 1]).update(
                                i + 1,
                                x,
                            ));
                        }
                    }
                },
                StackMove::Backward => {
                    if i > 0 {
                        let a = items.remove(i);
                        items.insert(i - 1, a);
                        proof {
                            assert(item_models(items@) =~= om.update(i as int, om[i - 1]).update(
                                i - 1,
                                x,
                            ));
                        }
                    }
                },
            }
            proof {
                let new_page = doc.pages@[p as int];
                assert(page_models(doc.pages@) =~= page_models(old_pages).update(
                    p as int,
                    new_page.model(),
                ));
            }
        },
        None => {},
    }
}

fn restack_in_order(doc: &mut Document, ids: &Vec<String>, how: StackMove)
    ensures
        final(doc).model() == with_pages(
            old(doc).model(),
            restacked_all(old(doc).model().pages, ids_view(ids@), how),
        ),
{
    let ghost iv = ids_view(ids@);
    let n = ids.len();
    assert(iv.take(0) =~= Seq::<Seq<char>>::empty());
    for k in 0..n
        invariant
            n == ids@.len(),
            iv == ids_view(ids@),
            doc.model() == with_pages(
                old(doc).model(),
                restacked_all(old(doc).model().pages, iv.take(k as int), how),
            ),
    {
        restack_one(doc, ids[k].as_str(), how);
        proof {
            assert(iv.take(k + 1).drop_last() =~= iv.take(k as int));
            assert(iv.take(k + 1).last() == ids@[k as int]@);
        }
    }
    assert(iv.take(n as int) =~= iv);
}

fn restack_in_reverse(doc: &mut Document, ids: &Vec<String>, how: StackMove)
    ensures
        final(doc).model() == with_pages(
            old(doc).model(),
            restacked_all(old(doc).model().pages, ids_view(ids@).reverse(), how),
        ),
{
    let ghost rv = ids_view(ids@).reverse();
    let n = ids.len();
    assert(rv.take(0) =~= Seq::<Seq<char>>::empty());
    let mut k: usize = 0;
    while k < n
        invariant
            n == ids@.len(),
            rv == ids_view(ids@).reverse(),
            k <= n,
            doc.model() == with_pages(
                old(doc).model(),
                restacked_all(old(doc).model().pages, rv.take(k as int), how),
            ),
        decreases n - k,
    {
        restack_one(doc, ids[n - 1 - k].as_str(), how);
        proof {
            assert(rv.take(k + 1).drop_last() =~= rv.take(k as int));
            assert(rv.take(k + 1).last() == ids@[n - 1 - k]@);
        }
        k = k + 1;
    }
    assert(rv.take(n as int) =~= rv);
}

/// Moves each listed item, in list order, to the top of its page.
pub fn bring_to_front(doc: &mut Document, ids: &Vec<String>)
    ensures
        final(doc).model() == with_pages(
            old(doc).model(),
            restacked_all(old(doc).model().pages, ids_view(ids@), StackMove::ToFront),
        ),
{
    restack_in_order(doc, ids, StackMove::ToFront);
}

/// Moves each listed item, last one first, to the bottom of its page, so
/// that the listed items keep their order at the bottom.
pub fn send_to_back(doc: &mut Document, ids: &Vec<String>)
    ensures
        final(doc).model() == with_pages(
            old(doc).model(),
            restacked_all(old(doc).model().pages, ids_view(ids@).reverse(), StackMove::ToBack),
        ),
{
    restack_in_reverse(doc, ids, StackMove::ToBack);
}

/// Moves each listed item, last one first, one step up.
pub fn bring_forward(doc: &mut Document, ids: &Vec<String>)
    ensures
        final(doc).model() == with_pages(
            old(doc).model(),
            restacked_all(old(doc).model().pages, ids_view(ids@).reverse(), StackMove::Forward),
        ),
{
    restack_in_reverse(doc, ids, StackMove::Forward);
}

/// Moves each listed item, in list order, one step down.
pub fn send_backward(doc: &mut Document, ids: &Vec<String>)
    ensures
        final(doc).model() == with_pages(
            old(doc).model(),
            restacked_all(old(doc).model().pages, ids_view(ids@), StackMove::Backward),
        ),
{
    restack_in_order(doc, ids, StackMove::Backward);
}

// ── Laws of the stacking order ───────────────────────────────────────────────

/// Law: moving an item within the stacking order keeps every page's items,
/// counted with repetition, and each page's master page.
pub proof fn law_restack_keeps_items(pages: Seq<PageModel>, id: Seq<char>, how: StackMove)
    ensures
        restacked(pages, id, how).len() == pages.len(),
        forall|q: int|
            0 <= q < pages.len() ==> (#[trigger] restacked(pages, id, how)[q]).items.to_multiset()
                == pages[q].items.to_multiset() && restacked(pages, id, how)[q].master_page
                == pages[q].master_page,
{
    lemma_find_loc(pages, id);
    match find_loc(pages, id) {
        Some((p, i)) => {
            let s = pages[p].items;
            let x = s[i];
            match how {
                StackMove::ToFront => {
                    assert(s.remove(i).push(x).to_multiset() =~= s.to_multiset());
                },
                StackMove::ToBack => {
                    vstd::seq_lib::to_multiset_insert(s.remove(i), 0, x);
                    assert(s.remove(i).insert(0, x).to_multiset() =~= s.to_multiset());
                },
                StackMove::Forward => {
                    if i + 1 < s.len() {
                        let t = s.update(i, s[i + 1]);
                        vstd::seq_lib::to_multiset_update(s, i, s[i + 1]);
                        vstd::seq_lib::to_multiset_update(t, i + 1, x);
                        assert(t.update(i + 1, x).to_multiset() =~= s.to_multiset());
                    }
                },
                StackMove::Backward => {
                    if i > 0 {
                        let t = s.update(i, s[i - 1]);
                        vstd::seq_lib::to_multiset_update(s, i, s[i - 1]);
                        vstd::seq_lib::to_multiset_update(t, i - 1, x);
                        assert(t.update(i - 1, x).to_multiset() =~= s.to_multiset());
                    }
                },
            }
        },
        None => {},
    }
}

/// Law: however many items are moved, every page keeps its items, counted
/// with repetition, and its master page.
pub proof fn law_restack_all_keeps_items(pages: Seq<PageModel>, ids: Seq<Seq<char>>, how: StackMove)
    ensures
        restacked_all(pages, ids, how).len() == pages.len(),
        forall|q: int|
            0 <= q < pages.len() ==> (#[trigger] restacked_all(pages, ids, how)[q]).items.to_multiset()
                == pages[q].items.to_multiset() && restacked_all(pages, ids, how)[q].master_page
                == pages[q].master_page,
    decreases ids.len(),
{
    if ids.len() > 0 {
        let before = restacked_all(pages, ids.drop_last(), how);
        law_restack_all_keeps_items(pages, ids.drop_last(), how);
        law_restack_keeps_items(before, ids.last(), how);
        assert forall|q: int| 0 <= q < pages.len() implies (#[trigger] restacked_all(
            pages,
            ids,
            how,
        )[q]).items.to_multiset() == pages[q].items.to_multiset() && restacked_all(
            pages,
            ids,
            how,
        )[q].master_page == pages[q].master_page by {
            assert(restacked_all(pages, ids, how)[q] == restacked(before, ids.last(), how)[q]);
            assert(before[q].items.to_multiset() == pages[q].items.to_multiset());
        }
    }
}

/// Law: an item brought to the front is drawn last on its page, and one sent
/// to the back is drawn first.
pub proof fn law_front_and_back(pages: Seq<PageModel>, id: Seq<char>)
    requires
        find_loc(pages, id) is Some,
    ensures
        ({
            let (p, i) = find_loc(pages, id).unwrap();
            &&& restacked(pages, id, StackMove::ToFront)[p].items.last() == pages[p].items[i]
            &&& restacked(pages, id, StackMove::ToBack)[p].items[0] == pages[p].items[i]
        }),
{
    lemma_find_loc(pages, id);
}


// ── Borders ──────────────────────────────────────────────────────────────────

/// The pages after the first item of each id in `ids` gets `show` as its
/// border setting.
pub open spec fn bordered_all(pages: Seq<PageModel>, ids: Seq<Seq<char>>, show: bool) -> Seq<PageModel>
    decreases ids.len(),
{
    if ids.len() == 0 {
        pages
    } else {
        update_item(
            bordered_all(pages, ids.drop_last(), show),
            ids.last(),
            |it: ItemModel| ItemModel { show_border: show, ..it },
        )
    }
}

fn set_item_border(doc: &mut Document, id: &str, show: bool)
    ensures
        final(doc).model() == with_pages(
            old(doc).model(),
            update_item(old(doc).model().pages, id@, |it: ItemModel| ItemModel { show_border: show, ..it }),
        ),
{
    let ghost old_pages = doc.pages@;
    match locate(&doc.pages, id) {
        Some((p, i)) => {
            proof {
                lemma_find_loc(doc.model().pages, id@);
            }
            let ghost old_page = doc.pages@[p as int];
            doc.pages[p].items[i].show_border = show;
            proof {
                let new_page = doc.pages@[p as int];
                assert(item_models(new_page.items@) =~= item_models(old_page.items@).update(
                    i as int,
                    new_page.items@[i as int].model(),
                ));
                assert(page_models(doc.pages@) =~= page_models(old_pages).update(
                    p as int,
                    new_page.model(),
                ));
            }
        },
        None => {},
    }
}

/// Shows or hides the border of each listed item.
pub fn set_show_border(doc: &mut Document, ids: &Vec<String>, show: bool)
    ensures
        final(doc).model() == with_pages(
            old(doc).model(),
            bordered_all(old(doc).model().pages, ids_view(ids@), show),
        ),
{
    let ghost iv = ids_view(ids@);
    let n = ids.len();
    assert(iv.take(0) =~= Seq::<Seq<char>>::empty());
    for k in 0..n
        invariant
            n == ids@.len(),
            iv == ids_view(ids@),
            doc.model() == with_pages(
                old(doc).model(),
                bordered_all(old(doc).model().pages, iv.take(k as int), show),
            ),
    {
        set_item_border(doc, ids[k].as_str(), show);
        proof {
            assert(iv.take(k + 1).drop_last() =~= iv.take(k as int));
            assert(iv.take(k + 1).last() == ids@[k as int]@);
        }
    }
    assert(iv.take(n as int) =~= iv);
}

// ── Removing items ───────────────────────────────────────────────────────────

/// The items whose ids are not in `ids`, in their order.
pub open spec fn items_without(items: Seq<ItemModel>, ids: Seq<Seq<char>>) -> Seq<ItemModel>
    decreases items.len(),
{
    if items.len() == 0 {
        Seq::empty()
    } else {
        items_without(items.drop_last(), ids) + if ids.contains(items.last().id) {
            Seq::empty()
        } else {
            seq![items.last()]
        }
    }
}

/// The pages without the items whose ids are in `ids`.
pub open spec fn pages_without(pages: Seq<PageModel>, ids: Seq<Seq<char>>) -> Seq<PageModel> {
    pages.map_values(|p: PageModel| PageModel { items: items_without(p.items, ids), ..p })
}

fn kept_items(items: &Vec<Item>, ids: &Vec<String>) -> (r: Vec<Item>)
    ensures
        item_models(r@) == items_without(item_models(items@), ids_view(ids@)),
{
    let ghost im = item_models(items@);
    let mut out: Vec<Item> = Vec::new();
    let n = items.len();
    assert(im.take(0) =~= Seq::<ItemModel>::empty());
    for k in 0..n
        invariant
            n == items@.len(),
            im == item_models(items@),
            item_models(out@) == items_without(im.take(k as int), ids_view(ids@)),
    {
        let ghost before = out@;
        proof {
            assert(im.take(k + 1).drop_last() =~= im.take(k as int));
            assert(im.take(k + 1).last() == items@[k as int].model());
        }
        if !contains_id(ids, items[k].id.as_str()) {
            let it = items[k].clone_item();
            out.push(it);
            assert(item_models(out@) =~= item_models(before).push(it.model()));
        }
    }
    assert(im.take(n as int) =~= im);
    out
}

/// Removes every item whose id is listed, from every page.
pub fn remove_items(doc: &mut Document, ids: &Vec<String>)
    ensures
        final(doc).model() == with_pages(
            old(doc).model(),
            pages_without(old(doc).model().pages, ids_view(ids@)),
        ),
{
    let np = doc.pages.len();
    let ghost pm0 = doc.model().pages;
    for p in 0..np
        invariant
            np == doc.pages@.len(),
            pm0 == old(doc).model().pages,
            pm0.len() == np,
            doc.model().title == old(doc).model().title,
            doc.model().width == old(doc).model().width,
            doc.model().height == old(doc).model().height,
            doc.model().master_pages == old(doc).model().master_pages,
            forall|q: int|
                0 <= q < np ==> #[trigger] doc.model().pages[q] == if q < p {
                    PageModel { items: items_without(pm0[q].items, ids_view(ids@)), ..pm0[q] }
                } else {
                    pm0[q]
                },
    {
        let kept = kept_items(&doc.pages[p].items, ids);
        let ghost before = doc.pages@;
        let ghost pmb = doc.model().pages;
        assert(doc.model().pages[p as int] == pm0[p as int]);
        assert(before[p as int].model() == pm0[p as int]);
        doc.pages[p].items = kept;
        proof {
            assert(doc.pages@ == before.update(p as int, doc.pages@[p as int]));
            assert forall|q: int| 0 <= q < np implies #[trigger] doc.model().pages[q] == if q < p + 1 {
                PageModel { items: items_without(pm0[q].items, ids_view(ids@)), ..pm0[q] }
            } else {
                pm0[q]
            } by {
                assert(doc.model().pages[q] == doc.pages@[q].model());
                if q != p {
                    assert(doc.pages@[q] == before[q]);
                    assert(pmb[q] == before[q].model());
                } else {
                    assert(doc.pages@[q].master_page == before[q].master_page);
                    assert(item_models(doc.pages@[q].items@) == items_without(pm0[q].items, ids_view(ids@)));
                }
            }
        }
    }
    assert(doc.model().pages =~= pages_without(pm0, ids_view(ids@)));
}


// ── Deleting frames of a chain ───────────────────────────────────────────────

/// The first frames of the chains that the listed frames belong to, each
/// once, in order of first appearance; frames outside any chain add none.
pub open spec fn roots_of(pages: Seq<PageModel>, ids: Seq<Seq<char>>) -> Seq<Seq<char>>
    decreases ids.len(),
{
    if ids.len() == 0 {
        Seq::empty()
    } else {
        let before = roots_of(pages, ids.drop_last());
        let x = ids.last();
        if in_chain(pages, x) && !before.contains(chain_root(pages, x)) {
            before.push(chain_root(pages, x))
        } else {
            before
        }
    }
}

/// The first frames of the chains that the listed frames belong to.
pub fn chain_roots_of(doc: &Document, ids: &Vec<String>) -> (r: Vec<String>)
    ensures
        ids_view(r@) == roots_of(doc.model().pages, ids_view(ids@)),
{
    let ghost pages = doc.model().pages;
    let ghost iv = ids_view(ids@);
    let mut out: Vec<String> = Vec::new();
    let n = ids.len();
    assert(iv.take(0) =~= Seq::<Seq<char>>::empty());
    for k in 0..n
        invariant
            n == ids@.len(),
            iv == ids_view(ids@),
            pages == doc.model().pages,
            ids_view(out@) == roots_of(pages, iv.take(k as int)),
    {
        proof {
            assert(iv.take(k + 1).drop_last() =~= iv.take(k as int));
            assert(iv.take(k + 1).last() == ids@[k as int]@);
        }
        if is_in_chain(doc, ids[k].as_str()) {
            let root = find_chain_root(doc, ids[k].as_str());
            proof {
                lemma_chain_root(pages, ids@[k as int]@, root@);
            }
            if !contains_id(&out, root.as_str()) {
                let ghost before = out@;
                out.push(root);
                assert(ids_view(out@) =~= ids_view(before).push(root@));
            }
        }
    }
    assert(iv.take(n as int) =~= iv);
    out
}

/// The frames of `c` whose ids are not in `ids`, in chain order.
pub open spec fn surviving(c: Seq<Seq<char>>, ids: Seq<Seq<char>>) -> Seq<Seq<char>>
    decreases c.len(),
{
    if c.len() == 0 {
        Seq::empty()
    } else {
        surviving(c.drop_last(), ids) + if ids.contains(c.last()) {
            Seq::empty()
        } else {
            seq![c.last()]
        }
    }
}

/// What deleting the frames `ids` does to the chain that starts at `root`:
/// the frames left are linked into a chain of their own, the first of them
/// gets the old first frame's whole text at offset 0. Nothing changes when no
/// frame is left or `root` is no text frame.
pub open spec fn relinked(pages: Seq<PageModel>, root: Seq<char>, ids: Seq<Seq<char>>) -> Seq<PageModel> {
    let rest = surviving(chain_of(pages, root), ids);
    match box_by_id(pages, root) {
        Some(rb) => if rest.len() == 0 {
            pages
        } else {
            update_box(
                linked_upto(pages, rest, rest.len() as int),
                rest[0],
                |b: BoxModel| with_content(b, rb.state.text, rb.state.attributes, 0),
            )
        },
        None => pages,
    }
}

fn surviving_ids(chain: &Vec<String>, ids: &Vec<String>) -> (r: Vec<String>)
    ensures
        ids_view(r@) == surviving(ids_view(chain@), ids_view(ids@)),
{
    let ghost cv = ids_view(chain@);
    let ghost iv = ids_view(ids@);
    let mut rest: Vec<String> = Vec::new();
    let n = chain.len();
    assert(cv.take(0) =~= Seq::<Seq<char>>::empty());
    for k in 0..n
        invariant
            n == chain@.len(),
            cv == ids_view(chain@),
            iv == ids_view(ids@),
            ids_view(rest@) == surviving(cv.take(k as int), iv),
    {
        proof {
            assert(cv.take(k + 1).drop_last() =~= cv.take(k as int));
            assert(cv.take(k + 1).last() == chain@[k as int]@);
        }
        if !contains_id(ids, chain[k].as_str()) {
            let ghost before = rest@;
            rest.push(chain[k].clone());
            assert(ids_view(rest@) =~= ids_view(before).push(chain@[k as int]@));
        }
    }
    assert(cv.take(n as int) =~= cv);
    rest
}

/// Relinks the chain that starts at `root_id` around the frames about to be
/// deleted (see `relinked`). Returns the new first frame when the chain left
/// has two frames or more, so that it can be reflowed.
pub fn relink_without(doc: &mut Document, root_id: &str, ids: &Vec<String>) -> (r: Option<String>)
    ensures
        ({
            let pages = old(doc).model().pages;
            let rest = surviving(chain_of(pages, root_id@), ids_view(ids@));
            &&& final(doc).model() == with_pages(old(doc).model(), relinked(pages, root_id@, ids_view(ids@)))
            &&& match r {
                Some(x) => box_by_id(pages, root_id@) is Some && rest.len() >= 2 && x@ == rest[0],
                None => box_by_id(pages, root_id@) is None || rest.len() < 2,
            }
        }),
{
    let ghost pages = doc.model().pages;
    let ghost iv = ids_view(ids@);
    let chain = collect_chain(doc, root_id);
    let ghost cv = ids_view(chain@);
    proof {
        lemma_chain_of(pages, root_id@, cv);
    }
    let rest = surviving_ids(&chain, ids);
    if rest.len() == 0 {
        return None;
    }
    let (text, attrs) = match chain_frame_textbox(doc, root_id) {
        Some(tb) => (tb.text.clone(), clone_attrs(&tb.attributes)),
        None => {
            return None;
        },
    };
    set_chain_links(doc, rest.as_slice());
    assert(ids_view(rest@)[0] == rest@[0]@);
    set_chain_frame_content(doc, rest[0].as_str(), text, attrs, 0);
    if rest.len() >= 2 {
        Some(rest[0].clone())
    } else {
        None
    }
}

// ── Linking two frames ───────────────────────────────────────────────────────

/// A text frame can take a previous frame: it has none yet.
pub open spec fn can_take_link(pages: Seq<PageModel>, target: Seq<char>) -> bool {
    match box_by_id(pages, target) {
        Some(b) => b.frame.prev_frame_id is None,
        None => false,
    }
}

/// The pages after `source` is linked to `target`: the source's next frame
/// becomes the target, and the target's previous frame the source.
pub open spec fn linked_pair(pages: Seq<PageModel>, source: Seq<char>, target: Seq<char>) -> Seq<PageModel> {
    let p1 = update_box(
        pages,
        source,
        |b: BoxModel| with_links(b, b.frame.prev_frame_id, Some(target)),
    );
    update_box(p1, target, |b: BoxModel| with_links(b, Some(source), b.frame.next_frame_id))
}

fn set_next_link(doc: &mut Document, id: &str, next: String)
    ensures
        final(doc).model() == with_pages(
            old(doc).model(),
            update_box(old(doc).model().pages, id@, |b: BoxModel| with_links(b, b.frame.prev_frame_id, Some(next@))),
        ),
{
    let ghost old_pages = doc.pages@;
    match locate(&doc.pages, id) {
        Some((p, i)) => {
            proof {
                lemma_find_loc(doc.model().pages, id@);
            }
            let ghost old_page = doc.pages@[p as int];
            let item = &mut doc.pages[p].items[i];
            match &mut item.content {
                ItemContent::Text(tb) => {
                    tb.next_frame_id = Some(next);
                },
                _ => {},
            }
            proof {
                let new_page = doc.pages@[p as int];
                assert(item_models(new_page.items@) =~= item_models(old_page.items@).update(
                    i as int,
                    new_page.items@[i as int].model(),
                ));
                assert(page_models(doc.pages@) =~= page_models(old_pages).update(
                    p as int,
                    new_page.model(),
                ));
            }
        },
        None => {},
    }
}

fn set_prev_link(doc: &mut Document, id: &str, prev: String)
    ensures
        final(doc).model() == with_pages(
            old(doc).model(),
            update_box(old(doc).model().pages, id@, |b: BoxModel| with_links(b, Some(prev@), b.frame.next_frame_id)),
        ),
{
    let ghost old_pages = doc.pages@;
    match locate(&doc.pages, id) {
        Some((p, i)) => {
            proof {
                lemma_find_loc(doc.model().pages, id@);
            }
            let ghost old_page = doc.pages@[p as int];
            let item = &mut doc.pages[p].items[i];
            match &mut item.content {
                ItemContent::Text(tb) => {
                    tb.prev_frame_id = Some(prev);
                },
                _ => {},
            }
            proof {
                let new_page = doc.pages@[p as int];
                assert(item_models(new_page.items@) =~= item_models(old_page.items@).update(
                    i as int,
                    new_page.items@[i as int].model(),
                ));
                assert(page_models(doc.pages@) =~= page_models(old_pages).update(
                    p as int,
                    new_page.model(),
                ));
            }
        },
        None => {},
    }
}

/// Links `source` to `target` when the target is a text frame without a
/// previous frame; says whether it did. The chain then needs a reflow from
/// the source.
pub fn link_frames(doc: &mut Document, source_id: &str, target_id: &str) -> (r: bool)
    ensures
        r == can_take_link(old(doc).model().pages, target_id@),
        r ==> final(doc).model() == with_pages(
            old(doc).model(),
            linked_pair(old(doc).model().pages, source_id@, target_id@),
        ),
        !r ==> final(doc).model() == old(doc).model(),
{
    let free = match chain_frame_textbox(doc, target_id) {
        Some(tb) => tb.prev_frame_id.is_none(),
        None => false,
    };
    if !free {
        return false;
    }
    set_next_link(doc, source_id, target_id.to_owned());
    set_prev_link(doc, target_id, source_id.to_owned());
    true
}

} // verus!
