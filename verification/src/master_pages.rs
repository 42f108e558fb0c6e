//! Master pages: pages of items drawn beneath the pages that use them, and the
//! mode in which one is edited in place of the first page.
use vstd::prelude::*;
use crate::document::{
    clone_items, item_models, master_models, master_page_name, master_page_name_for, page_models,
    DocModel, Document, Item, ItemModel, MasterModel, MasterPage, Page, PageModel,
};
use crate::utf8_text::{same_text, str_byte_len};

verus! {

// ── Fresh ids ────────────────────────────────────────────────────────────────

/// A lowercase hexadecimal digit.
pub open spec fn is_lower_hex(c: char) -> bool {
    ('0' <= c && c <= '9') || ('a' <= c && c <= 'f')
}

/// The hyphenated lowercase text of a random (version 4) UUID: 36
/// characters, hyphens at 8, 13, 18 and 23, hexadecimal digits elsewhere,
/// the version digit 4 and a variant digit among 8, 9, a and b.
pub open spec fn is_uuid_text(s: Seq<char>) -> bool {
    &&& s.len() == 36
    &&& forall|i: int|
        0 <= i < 36 ==> if i == 8 || i == 13 || i == 18 || i == 23 {
            #[trigger] s[i] == '-'
        } else {
            is_lower_hex(s[i])
        }
    &&& s[14] == '4'
    &&& (s[19] == '8' || s[19] == '9' || s[19] == 'a' || s[19] == 'b')
}

/// The lowercase hexadecimal digit of `n` (below 16).
pub open spec fn hex_digit(n: int) -> char {
    if n < 10 {
        (48 + n) as char
    } else {
        (87 + n) as char
    }
}

/// The sixteen bytes of a version 4 UUID made from `b`: the high four bits
/// of byte 6 become the version 4 and the top two bits of byte 8 the variant
/// bits 10.
pub open spec fn v4_bytes(b: Seq<u8>) -> Seq<u8> {
    b.update(6, (b[6] & 0x0f) | 0x40).update(8, (b[8] & 0x3f) | 0x80)
}

/// The position among the 32 hexadecimal digits of the character at `i` of
/// the hyphenated text.
pub open spec fn digit_index(i: int) -> int {
    if i < 8 {
        i
    } else if i < 13 {
        i - 1
    } else if i < 18 {
        i - 2
    } else if i < 23 {
        i - 3
    } else {
        i - 4
    }
}

/// The hyphenated lowercase text of the version 4 UUID made from the bytes
/// `b`: each byte as two hexadecimal digits, high digit first, in groups of
/// 8, 4, 4, 4 and 12 digits joined by hyphens.
pub open spec fn uuid_text(b: Seq<u8>) -> Seq<char> {
    Seq::new(
        36,
        |i: int|
            if i == 8 || i == 13 || i == 18 || i == 23 {
                '-'
            } else {
                let k = digit_index(i);
                let byte = v4_bytes(b)[k / 2];
                hex_digit(if k % 2 == 0 { (byte / 16) as int } else { (byte % 16) as int })
            },
    )
}

proof fn lemma_uuid_text(b: Seq<u8>)
    requires
        b.len() == 16,
    ensures
        is_uuid_text(uuid_text(b)),
{
    let s = uuid_text(b);
    let b6 = b[6];
    let b8 = b[8];
    assert(((b6 & 0x0f) | 0x40) / 16 == 4) by (bit_vector);
    assert(8 <= ((b8 & 0x3f) | 0x80) / 16 <= 11) by (bit_vector);
    assert forall|i: int|
        0 <= i < 36 && !(i == 8 || i == 13 || i == 18 || i == 23) implies is_lower_hex(s[i]) by {
        let k = digit_index(i);
        assert(0 <= k < 32);
        let byte = v4_bytes(b)[k / 2];
        assert(byte / 16 < 16);
        assert(byte % 16 < 16);
    }
    assert(digit_index(14) == 12);
    assert(digit_index(19) == 16);
}

/// Sixteen bytes from the system's random source, by `getrandom::fill`,
/// which reports a failure of that source as an error instead of
/// panicking; `None` then. Nothing is stated of the bytes: they depend on
/// the random source.
#[verifier::external_body]
fn random_bytes() -> (r: Option<[u8; 16]>) {
    let mut bytes = [0u8; 16];
    match getrandom::fill(&mut bytes) {
        Ok(()) => Some(bytes),
        Err(_) => None,
    }
}

/// The text of the version 4 UUID made from `bytes`:
/// `uuid::Builder::from_random_bytes`, which sets the version and variant
/// bits, written out by the UUID's `Display`, hyphenated lowercase
/// hexadecimal.
#[verifier::external_body]
fn uuid_from_random_bytes(bytes: [u8; 16]) -> (r: String)
    ensures
        r@ == uuid_text(bytes@),
{
    uuid::Builder::from_random_bytes(bytes).into_uuid().to_string()
}

/// A new random id, or `None` when the random source fails.
fn new_uuid_string() -> (r: Option<String>)
    ensures
        r matches Some(id) ==> is_uuid_text(id@),
{
    match random_bytes() {
        Some(bytes) => {
            let id = uuid_from_random_bytes(bytes);
            proof {
                lemma_uuid_text(bytes@);
            }
            Some(id)
        },
        None => None,
    }
}

// ── Finding master pages ─────────────────────────────────────────────────────

/// Index of the first master page with the given id.
pub open spec fn find_master(ms: Seq<MasterModel>, id: Seq<char>) -> Option<int>
    decreases ms.len(),
{
    if ms.len() == 0 {
        None
    } else {
        match find_master(ms.drop_last(), id) {
            Some(i) => Some(i),
            None => if ms.last().id == id {
                Some(ms.len() - 1)
            } else {
                None
            },
        }
    }
}

pub proof fn lemma_find_master(ms: Seq<MasterModel>, id: Seq<char>)
    ensures
        match find_master(ms, id) {
            Some(i) => 0 <= i < ms.len() && ms[i].id == id && forall|k: int|
                0 <= k < i ==> #[trigger] ms[k].id != id,
            None => forall|k: int| 0 <= k < ms.len() ==> #[trigger] ms[k].id != id,
        },
    decreases ms.len(),
{
    if ms.len() > 0 {
        lemma_find_master(ms.drop_last(), id);
        assert forall|k: int| 0 <= k < ms.len() - 1 implies ms[k] == ms.drop_last()[k] by {}
    }
}

fn locate_master(ms: &Vec<MasterPage>, id: &str) -> (r: Option<usize>)
    ensures
        match r {
            Some(i) => i < ms@.len() && find_master(master_models(ms@), id@) == Some(i as int),
            None => find_master(master_models(ms@), id@) is None,
        },
{
    let ghost mm = master_models(ms@);
    proof {
        lemma_find_master(mm, id@);
    }
    let n = ms.len();
    for i in 0..n
        invariant
            n == ms@.len(),
            mm == master_models(ms@),
            forall|k: int| 0 <= k < i ==> #[trigger] mm[k].id != id@,
    {
        assert(mm[i as int].id == ms@[i as int].id@);
        if same_text(ms[i].id.as_str(), id) {
            proof {
                lemma_find_master(mm, id@);
                match find_master(mm, id@) {
                    Some(j) => {
                        if j > i {
                            assert(mm[i as int].id == id@);
                        }
                    },
                    None => {
                        assert(mm[i as int].id == id@);
                    },
                }
            }
            return Some(i);
        }
    }
    None
}

/// The items of the first master page with the given id; none when there is
/// no such master page.
pub open spec fn master_items(ms: Seq<MasterModel>, id: Seq<char>) -> Seq<ItemModel> {
    match find_master(ms, id) {
        Some(i) => ms[i].items,
        None => Seq::empty(),
    }
}

/// Copies of the items of the first master page with the given id.
pub fn clone_master_items(doc: &Document, mp_id: &str) -> (r: Vec<Item>)
    ensures
        item_models(r@) == master_items(doc.model().master_pages, mp_id@),
{
    match locate_master(&doc.master_pages, mp_id) {
        Some(i) => {
            assert(doc.model().master_pages[i as int] == doc.master_pages@[i as int].model());
            clone_items(&doc.master_pages[i].items)
        },
        None => {
            let r: Vec<Item> = Vec::new();
            assert(item_models(r@) =~= Seq::<ItemModel>::empty());
            r
        },
    }
}

// ── Making master pages ──────────────────────────────────────────────────────

/// `copies` are the items `src` with fresh random ids.
pub open spec fn fresh_copies(copies: Seq<ItemModel>, src: Seq<ItemModel>) -> bool {
    &&& copies.len() == src.len()
    &&& forall|i: int|
        0 <= i < src.len() ==> #[trigger] copies[i] == ItemModel { id: copies[i].id, ..src[i] }
            && is_uuid_text(copies[i].id)
}

impl MasterPage {
    /// A master page named `name` holding copies of the page's items, each
    /// with a fresh id; the master page gets a fresh id too. `None` when the
    /// random source fails.
    pub fn from_page(name: String, page: &Page) -> (r: Option<MasterPage>)
        ensures
            r matches Some(mp) ==> {
                &&& mp.model().name == name@
                &&& is_uuid_text(mp.model().id)
                &&& fresh_copies(mp.model().items, page.model().items)
            },
    {
        let ghost src = page.model().items;
        let mut items: Vec<Item> = Vec::new();
        let n = page.items.len();
        for k in 0..n
            invariant
                n == page.items@.len(),
                src == page.model().items,
                fresh_copies(item_models(items@), src.take(k as int)),
        {
            let mut c = page.items[k].clone_item();
            match new_uuid_string() {
                Some(id) => {
                    c.id = id;
                },
                None => {
                    return None;
                },
            }
            let ghost before = items@;
            items.push(c);
            proof {
                assert(item_models(items@) =~= item_models(before).push(c.model()));
                assert(src[k as int] == page.items@[k as int].model());
                assert(src.take(k + 1) =~= src.take(k as int).push(src[k as int]));
            }
        }
        assert(src.take(n as int) =~= src);
        match new_uuid_string() {
            Some(id) => Some(MasterPage { id, name, items }),
            None => None,
        }
    }
}

/// Adds a master page made from the page at `page_idx`, named after the
/// number of master pages it makes; returns whether it did. When the random
/// source fails, nothing changes.
pub fn create_master_page(doc: &mut Document, page_idx: usize) -> (r: bool)
    requires
        page_idx < old(doc).pages@.len(),
        old(doc).master_pages@.len() < usize::MAX,
    ensures
        !r ==> final(doc).model() == old(doc).model(),
        r ==> {
            &&& final(doc).model().pages == old(doc).model().pages
            &&& final(doc).model().title == old(doc).model().title
            &&& final(doc).model().width == old(doc).model().width
            &&& final(doc).model().height == old(doc).model().height
            &&& final(doc).model().master_pages.len() == old(doc).model().master_pages.len() + 1
            &&& final(doc).model().master_pages.drop_last() == old(doc).model().master_pages
            &&& final(doc).model().master_pages.last().name == master_page_name(
                (old(doc).model().master_pages.len() + 1) as nat,
            )
            &&& is_uuid_text(final(doc).model().master_pages.last().id)
            &&& fresh_copies(
                final(doc).model().master_pages.last().items,
                old(doc).model().pages[page_idx as int].items,
            )
        },
{
    let name = master_page_name_for(doc.master_pages.len() + 1);
    match MasterPage::from_page(name, &doc.pages[page_idx]) {
        Some(mp) => {
            doc.master_pages.push(mp);
            assert(master_models(doc.master_pages@).drop_last() =~= master_models(
                old(doc).master_pages@,
            ));
            true
        },
        None => false,
    }
}

/// Adds an empty master page with a fresh id, named after the number of
/// master pages it makes, and returns its id; `None`, with nothing changed,
/// when the random source fails.
pub fn new_master_page(doc: &mut Document) -> (r: Option<String>)
    requires
        old(doc).master_pages@.len() < usize::MAX,
    ensures
        r is None ==> final(doc).model() == old(doc).model(),
        r matches Some(id) ==> final(doc).model() == (DocModel {
            master_pages: old(doc).model().master_pages.push(
                MasterModel {
                    id: id@,
                    name: master_page_name((old(doc).model().master_pages.len() + 1) as nat),
                    items: Seq::empty(),
                },
            ),
            ..old(doc).model()
        }) && is_uuid_text(id@),
{
    let id = match new_uuid_string() {
        Some(id) => id,
        None => {
            return None;
        },
    };
    let name = master_page_name_for(doc.master_pages.len() + 1);
    let mp = MasterPage { id: id.clone(), name, items: Vec::new() };
    assert(item_models(mp.items@) =~= Seq::<ItemModel>::empty());
    doc.master_pages.push(mp);
    assert(master_models(doc.master_pages@) =~= master_models(old(doc).master_pages@).push(mp.model()));
    Some(id)
}

/// The master page to edit for a request naming `mp_id`: that one, or for an
/// empty name the first master page, made as a new empty one when there is
/// none. `None`, with nothing changed, when a new one is needed and the
/// random source fails.
pub fn master_page_to_edit(doc: &mut Document, mp_id: String) -> (r: Option<String>)
    requires
        old(doc).master_pages@.len() < usize::MAX,
    ensures
        mp_id@.len() > 0 ==> (r == Some(mp_id) && final(doc).model() == old(doc).model()),
        mp_id@.len() == 0 && old(doc).model().master_pages.len() > 0 ==> (r is Some && r.unwrap()@
            == old(doc).model().master_pages[0].id && final(doc).model() == old(doc).model()),
        mp_id@.len() == 0 && old(doc).model().master_pages.len() == 0 ==> match r {
            Some(id) => final(doc).model() == (DocModel {
                master_pages: seq![
                    MasterModel { id: id@, name: master_page_name(1), items: Seq::empty() },
                ],
                ..old(doc).model()
            }) && is_uuid_text(id@),
            None => final(doc).model() == old(doc).model(),
        },
{
    proof {
        crate::reflow::lemma_empty_bytes(mp_id@);
    }
    if str_byte_len(mp_id.as_str()) > 0 {
        return Some(mp_id);
    }
    if doc.master_pages.len() > 0 {
        assert(doc.model().master_pages[0] == doc.master_pages@[0].model());
        return Some(doc.master_pages[0].id.clone());
    }
    let r = new_master_page(doc);
    match &r {
        Some(id) => {
            assert(old(doc).model().master_pages.push(
                MasterModel { id: id@, name: master_page_name(1), items: Seq::empty() },
            ) =~= seq![MasterModel { id: id@, name: master_page_name(1), items: Seq::empty() }]);
        },
        None => {},
    }
    r
}

// ── Using master pages ───────────────────────────────────────────────────────

/// The pages with the page at `idx`, if any, given `mp` as master page.
pub open spec fn with_master(pages: Seq<PageModel>, idx: int, mp: Option<Seq<char>>) -> Seq<PageModel> {
    if 0 <= idx < pages.len() {
        pages.update(idx, PageModel { master_page: mp, ..pages[idx] })
    } else {
        pages
    }
}

fn set_page_master(doc: &mut Document, page_idx: usize, mp: Option<String>)
    ensures
        final(doc).model() == (DocModel {
            pages: with_master(
                old(doc).model().pages,
                page_idx as int,
                match mp {
                    Some(s) => Some(s@),
                    None => None,
                },
            ),
            ..old(doc).model()
        }),
{
    if page_idx < doc.pages.len() {
        let ghost before = doc.pages@;
        doc.pages[page_idx].master_page = mp;
        assert(page_models(doc.pages@) =~= page_models(before).update(
            page_idx as int,
            doc.pages@[page_idx as int].model(),
        ));
    }
}

/// Gives the page at `page_idx`, if there is one, the master page `mp_id`.
pub fn apply_master_page(doc: &mut Document, page_idx: usize, mp_id: String)
    ensures
        final(doc).model() == (DocModel {
            pages: with_master(old(doc).model().pages, page_idx as int, Some(mp_id@)),
            ..old(doc).model()
        }),
{
    set_page_master(doc, page_idx, Some(mp_id));
}

/// Takes the master page off the page at `page_idx`, if there is one.
pub fn remove_master_page_from(doc: &mut Document, page_idx: usize)
    ensures
        final(doc).model() == (DocModel {
            pages: with_master(old(doc).model().pages, page_idx as int, None),
            ..old(doc).model()
        }),
{
    set_page_master(doc, page_idx, None);
}

/// The master pages with the first one of the given id renamed.
pub open spec fn renamed(ms: Seq<MasterModel>, id: Seq<char>, name: Seq<char>) -> Seq<MasterModel> {
    match find_master(ms, id) {
        Some(i) => ms.update(i, MasterModel { name, ..ms[i] }),
        None => ms,
    }
}

/// Renames the first master page with the given id.
pub fn rename_master_page(doc: &mut Document, mp_id: &str, new_name: String)
    ensures
        final(doc).model() == (DocModel {
            master_pages: renamed(old(doc).model().master_pages, mp_id@, new_name@),
            ..old(doc).model()
        }),
{
    match locate_master(&doc.master_pages, mp_id) {
        Some(i) => {
            let ghost before = doc.master_pages@;
            doc.master_pages[i].name = new_name;
            assert(master_models(doc.master_pages@) =~= master_models(before).update(
                i as int,
                doc.master_pages@[i as int].model(),
            ));
        },
        None => {},
    }
}

/// The master pages without those of the given id.
pub open spec fn masters_without(ms: Seq<MasterModel>, id: Seq<char>) -> Seq<MasterModel>
    decreases ms.len(),
{
    if ms.len() == 0 {
        Seq::empty()
    } else {
        masters_without(ms.drop_last(), id) + if ms.last().id == id {
            Seq::empty()
        } else {
            seq![ms.last()]
        }
    }
}

/// The pages with every use of the master page `id` taken off.
pub open spec fn pages_unmastered(pages: Seq<PageModel>, id: Seq<char>) -> Seq<PageModel> {
    pages.map_values(
        |p: PageModel|
            if p.master_page == Some(id) {
                PageModel { master_page: None, ..p }
            } else {
                p
            },
    )
}

/// Deletes every master page with the given id, and takes it off every page
/// that used it.
pub fn delete_master_page(doc: &mut Document, mp_id: &str)
    ensures
        final(doc).model() == (DocModel {
            master_pages: masters_without(old(doc).model().master_pages, mp_id@),
            pages: pages_unmastered(old(doc).model().pages, mp_id@),
            ..old(doc).model()
        }),
{
    let ghost mm = master_models(doc.master_pages@);
    let mut kept: Vec<MasterPage> = Vec::new();
    let n = doc.master_pages.len();
    assert(mm.take(0) =~= Seq::<MasterModel>::empty());
    for k in 0..n
        invariant
            n == doc.master_pages@.len(),
            mm == master_models(doc.master_pages@),
            mm == old(doc).model().master_pages,
            doc.model() == old(doc).model(),
            master_models(kept@) == masters_without(mm.take(k as int), mp_id@),
    {
        proof {
            assert(mm.take(k + 1).drop_last() =~= mm.take(k as int));
            assert(mm.take(k + 1).last() == doc.master_pages@[k as int].model());
        }
        if !same_text(doc.master_pages[k].id.as_str(), mp_id) {
            let m = &doc.master_pages[k];
            let copy = MasterPage { id: m.id.clone(), name: m.name.clone(), items: clone_items(&m.items) };
            let ghost before = kept@;
            kept.push(copy);
            assert(master_models(kept@) =~= master_models(before).push(copy.model()));
        }
    }
    assert(mm.take(n as int) =~= mm);
    doc.master_pages = kept;
    let np = doc.pages.len();
    let ghost pm0 = doc.model().pages;
    for p in 0..np
        invariant
            np == doc.pages@.len(),
            pm0.len() == np,
            pm0 == old(doc).model().pages,
            master_models(doc.master_pages@) == masters_without(old(doc).model().master_pages, mp_id@),
            doc.title@ == old(doc).model().title,
            doc.width == old(doc).model().width,
            doc.height == old(doc).model().height,
            forall|q: int|
                0 <= q < np ==> #[trigger] doc.model().pages[q] == if q < p {
                    pages_unmastered(pm0, mp_id@)[q]
                } else {
                    pm0[q]
                },
    {
        let ghost before = doc.pages@;
        let ghost pmb = doc.model().pages;
        assert(pmb[p as int] == pm0[p as int]);
        let uses = match &doc.pages[p].master_page {
            Some(m) => same_text(m.as_str(), mp_id),
            None => false,
        };
        if uses {
            doc.pages[p].master_page = None;
        }
        proof {
            assert forall|q: int| 0 <= q < np implies #[trigger] doc.model().pages[q] == if q < p + 1 {
                pages_unmastered(pm0, mp_id@)[q]
            } else {
                pm0[q]
            } by {
                assert(doc.model().pages[q] == doc.pages@[q].model());
                assert(pmb[q] == before[q].model());
                if q != p {
                    assert(doc.pages@[q] == before[q]);
                }
            }
        }
    }
    assert(doc.model().pages =~= pages_unmastered(pm0, mp_id@));
}

/// Law: once a master page is deleted, no master page has its id and no page
/// uses it.
pub proof fn law_deleted_master_is_gone(d: DocModel, id: Seq<char>)
    ensures
        forall|k: int|
            0 <= k < masters_without(d.master_pages, id).len() ==> (#[trigger] masters_without(
                d.master_pages,
                id,
            )[k]).id != id,
        forall|q: int|
            0 <= q < d.pages.len() ==> (#[trigger] pages_unmastered(d.pages, id)[q]).master_page
                != Some(id),
{
    lemma_masters_without(d.master_pages, id);
}

proof fn lemma_masters_without(ms: Seq<MasterModel>, id: Seq<char>)
    ensures
        forall|k: int|
            0 <= k < masters_without(ms, id).len() ==> (#[trigger] masters_without(ms, id)[k]).id != id,
    decreases ms.len(),
{
    if ms.len() > 0 {
        lemma_masters_without(ms.drop_last(), id);
        let before = masters_without(ms.drop_last(), id);
        assert forall|k: int| 0 <= k < masters_without(ms, id).len() implies (#[trigger] masters_without(
            ms,
            id,
        )[k]).id != id by {
            if k < before.len() {
                assert(masters_without(ms, id)[k] == before[k]);
            }
        }
    }
}


// ── Editing a master page in place of the first page ─────────────────────────

/// Whether a master page is being edited, which one, and the first page's own
/// items, put aside while its place shows the master page's items.
pub struct MasterPageMode {
    pub active: bool,
    pub selected: Option<String>,
    pub saved_items: Option<Vec<Item>>,
}

pub struct ModeModel {
    pub active: bool,
    pub selected: Option<Seq<char>>,
    pub saved: Option<Seq<ItemModel>>,
}

impl MasterPageMode {
    pub open spec fn model(&self) -> ModeModel {
        ModeModel {
            active: self.active,
            selected: match self.selected {
                Some(s) => Some(s@),
                None => None,
            },
            saved: match self.saved_items {
                Some(v) => Some(item_models(v@)),
                None => None,
            },
        }
    }
}

/// No master page is being edited and nothing is put aside.
pub open spec fn idle_mode() -> ModeModel {
    ModeModel { active: false, selected: None, saved: None }
}

/// A master page is being edited.
pub open spec fn mode_on(m: ModeModel) -> bool {
    m.active && m.selected is Some
}

/// The document after the first page's items are written back to the
/// selected master page (when there is one with that id).
pub open spec fn saved_back(d: DocModel, m: ModeModel) -> DocModel {
    match m.selected {
        Some(id) => match find_master(d.master_pages, id) {
            Some(i) => DocModel {
                master_pages: d.master_pages.update(
                    i,
                    MasterModel { items: d.pages[0].items, ..d.master_pages[i] },
                ),
                ..d
            },
            None => d,
        },
        None => d,
    }
}

/// The first page with the given items.
pub open spec fn with_first_items(d: DocModel, items: Seq<ItemModel>) -> DocModel {
    DocModel { pages: d.pages.update(0, PageModel { items, ..d.pages[0] }), ..d }
}

/// Entering the editing of master page `id`: nothing happens when it is
/// already being edited; otherwise the master page being edited, if any,
/// gets the first page's items back, the first page's own items are put aside
/// unless they already are, and the first page shows copies of the items of
/// master page `id`.
pub open spec fn entered(d: DocModel, m: ModeModel, id: Seq<char>) -> (DocModel, ModeModel) {
    if mode_on(m) && m.selected == Some(id) {
        (d, m)
    } else {
        let d1 = saved_back(d, m);
        let saved = match m.saved {
            Some(v) => Some(v),
            None => Some(d1.pages[0].items),
        };
        (
            with_first_items(d1, master_items(d1.master_pages, id)),
            ModeModel { active: true, selected: Some(id), saved },
        )
    }
}

/// Leaving the editing of a master page: nothing happens outside that mode;
/// otherwise the master page gets the first page's items, and the first page
/// gets its own items back.
pub open spec fn exited(d: DocModel, m: ModeModel) -> (DocModel, ModeModel) {
    if !mode_on(m) {
        (d, m)
    } else {
        let d1 = saved_back(d, m);
        let d2 = match m.saved {
            Some(v) => with_first_items(d1, v),
            None => d1,
        };
        (d2, idle_mode())
    }
}

impl MasterPageMode {
    /// No master page is being edited.
    pub fn new() -> (r: MasterPageMode)
        ensures
            r.model() == idle_mode(),
    {
        MasterPageMode { active: false, selected: None, saved_items: None }
    }

    /// A master page is being edited.
    pub fn is_master_page_mode(&self) -> (r: bool)
        ensures
            r == mode_on(self.model()),
    {
        self.active && self.selected.is_some()
    }

    fn save_back(&self, doc: &mut Document)
        requires
            old(doc).pages@.len() > 0,
        ensures
            final(doc).model() == saved_back(old(doc).model(), self.model()),
            final(doc).pages@.len() == old(doc).pages@.len(),
    {
        match &self.selected {
            Some(id) => {
                match locate_master(&doc.master_pages, id.as_str()) {
                    Some(i) => {
                        let items = clone_items(&doc.pages[0].items);
                        let ghost before = doc.master_pages@;
                        doc.master_pages[i].items = items;
                        assert(master_models(doc.master_pages@) =~= master_models(before).update(
                            i as int,
                            doc.master_pages@[i as int].model(),
                        ));
                    },
                    None => {},
                }
            },
            None => {},
        }
    }

    fn show_on_first_page(doc: &mut Document, items: Vec<Item>)
        requires
            old(doc).pages@.len() > 0,
        ensures
            final(doc).model() == with_first_items(old(doc).model(), item_models(items@)),
            final(doc).pages@.len() == old(doc).pages@.len(),
    {
        let ghost before = doc.pages@;
        doc.pages[0].items = items;
        assert(page_models(doc.pages@) =~= page_models(before).update(0, doc.pages@[0].model()));
    }

    /// Starts editing master page `mp_id` in place of the first page (see
    /// `entered`); says whether anything changed, in which case the caller
    /// moves to the first page and drops its selection.
    pub fn enter(&mut self, doc: &mut Document, mp_id: String) -> (r: bool)
        requires
            old(doc).pages@.len() > 0,
        ensures
            (final(doc).model(), final(self).model()) == entered(
                old(doc).model(),
                old(self).model(),
                mp_id@,
            ),
            r == !(mode_on(old(self).model()) && old(self).model().selected == Some(mp_id@)),
            final(doc).pages@.len() > 0,
    {
        if self.is_master_page_mode() {
            let same = match &self.selected {
                Some(s) => same_text(s.as_str(), mp_id.as_str()),
                None => false,
            };
            if same {
                return false;
            }
        }
        if self.selected.is_some() {
            self.save_back(doc);
        }
        if self.saved_items.is_none() {
            self.saved_items = Some(clone_items(&doc.pages[0].items));
            assert(doc.model().pages[0] == doc.pages@[0].model());
        }
        let items = clone_master_items(doc, mp_id.as_str());
        Self::show_on_first_page(doc, items);
        self.selected = Some(mp_id);
        self.active = true;
        true
    }

    /// Stops editing the master page (see `exited`); says whether anything
    /// changed.
    pub fn exit(&mut self, doc: &mut Document) -> (r: bool)
        requires
            old(doc).pages@.len() > 0,
        ensures
            (final(doc).model(), final(self).model()) == exited(old(doc).model(), old(self).model()),
            r == mode_on(old(self).model()),
            final(doc).pages@.len() > 0,
    {
        if !self.is_master_page_mode() {
            return false;
        }
        self.save_back(doc);
        match self.saved_items.take() {
            Some(items) => Self::show_on_first_page(doc, items),
            None => {},
        }
        self.selected = None;
        self.active = false;
        true
    }
}

/// Law: opening a master page for editing and closing it again without
/// changes leaves the document as it was.
pub proof fn law_enter_exit_restores(d: DocModel, id: Seq<char>)
    requires
        d.pages.len() > 0,
    ensures
        exited(entered(d, idle_mode(), id).0, entered(d, idle_mode(), id).1) == (d, idle_mode()),
{
    let (d1, m1) = entered(d, idle_mode(), id);
    let (d2, m2) = exited(d1, m1);
    lemma_find_master(d.master_pages, id);
    match find_master(d.master_pages, id) {
        Some(i) => {
            assert(d2.master_pages =~= d.master_pages);
        },
        None => {},
    }
    assert(d2.pages =~= d.pages);
}

/// Law: closing a master page writes the first page's items, as edited, into
/// that master page and gives the first page its own items back.
pub proof fn law_exit_saves_edits(d: DocModel, m: ModeModel, i: int)
    requires
        d.pages.len() > 0,
        mode_on(m),
        m.saved is Some,
        find_master(d.master_pages, m.selected.unwrap()) == Some(i),
    ensures
        exited(d, m).0.master_pages[i].items == d.pages[0].items,
        exited(d, m).0.pages[0].items == m.saved.unwrap(),
        exited(d, m).1 == idle_mode(),
{
    lemma_find_master(d.master_pages, m.selected.unwrap());
}

} // verus!
