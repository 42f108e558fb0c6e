//! The names used when a project is stored as an archive, and the paths of
//! its assets once they are unpacked again.
use vstd::prelude::*;
use crate::document::{item_models, page_models, ContentModel, Document, Item, ItemContent, ItemModel, PageModel};
use crate::image_box::ImageModel;
use crate::svg_box::SvgModel;
use crate::utf8_text::{chars_of, same_text, str_byte_len};

verus! {

/// Reads and writes project archives.
pub struct PersistenceManager;

// ── Comparing texts ──────────────────────────────────────────────────────────

/// `s` begins with `prefix`.
pub open spec fn has_prefix(s: Seq<char>, prefix: Seq<char>) -> bool {
    prefix.len() <= s.len() && s.take(prefix.len() as int) == prefix
}

/// `s` ends with `suffix`.
pub open spec fn has_suffix(s: Seq<char>, suffix: Seq<char>) -> bool {
    suffix.len() <= s.len() && s.skip(s.len() - suffix.len()) == suffix
}

/// Whether `s` begins with `prefix`.
pub fn starts_with_text(s: &str, prefix: &str) -> (r: bool)
    ensures
        r == has_prefix(s@, prefix@),
{
    let a = chars_of(s);
    let b = chars_of(prefix);
    if b.len() > a.len() {
        return false;
    }
    let n = b.len();
    for k in 0..n
        invariant
            n == b@.len(),
            n <= a@.len(),
            a@ == s@,
            b@ == prefix@,
            forall|j: int| 0 <= j < k ==> a@[j] == b@[j],
    {
        if a[k] != b[k] {
            return false;
        }
    }
    assert(a@.take(n as int) =~= b@);
    true
}

/// Whether `s` ends with `suffix`.
pub fn ends_with_text(s: &str, suffix: &str) -> (r: bool)
    ensures
        r == has_suffix(s@, suffix@),
{
    let a = chars_of(s);
    let b = chars_of(suffix);
    if b.len() > a.len() {
        return false;
    }
    let n = b.len();
    let la = a.len();
    let off = la - n;
    for k in 0..n
        invariant
            n == b@.len(),
            la == a@.len(),
            off + n == la,
            a@ == s@,
            b@ == suffix@,
            forall|j: int| 0 <= j < k ==> a@[off + j] == b@[j],
    {
        if a[off + k] != b[k] {
            assert(a@.skip(off as int)[k as int] == a@[off + k]);
            return false;
        }
    }
    assert(a@.skip(off as int) =~= b@);
    true
}

/// The path with `.` and the extension added, unless it already ends so.
pub fn ensure_extension(path: String, extension: &str) -> (r: String)
    ensures
        has_suffix(path@, seq!['.'] + extension@) ==> r@ == path@,
        !has_suffix(path@, seq!['.'] + extension@) ==> r@ == path@ + seq!['.'] + extension@,
{
    let ghost pv = path@;
    let mut suffix = ".".to_owned();
    suffix.append(extension);
    proof {
        reveal_strlit(".");
        assert(".".view() =~= seq!['.']);
    }
    if ends_with_text(path.as_str(), suffix.as_str()) {
        path
    } else {
        let mut p = path;
        p.append(suffix.as_str());
        assert(p@ =~= pv + seq!['.'] + extension@);
        p
    }
}


// ── Names inside a project archive ───────────────────────────────────────────

/// Folder of the archive that holds image files.
pub const IMAGE_FOLDER: &'static str = "images/";

/// Folder of the archive that holds SVG files.
pub const SVG_FOLDER: &'static str = "svgs/";

/// Name of the archive entry that holds the document itself.
pub const DOCUMENT_ENTRY: &'static str = "document.json";

/// The first asset in `assets` stored under the archive name `name`, as the
/// path it was unpacked to.
pub open spec fn asset_lookup(assets: Seq<(Seq<char>, Seq<char>)>, name: Seq<char>) -> Option<Seq<char>>
    decreases assets.len(),
{
    if assets.len() == 0 {
        None
    } else if assets[0].0 == name {
        Some(assets[0].1)
    } else {
        asset_lookup(assets.drop_first(), name)
    }
}

pub open spec fn assets_view(v: Seq<(String, String)>) -> Seq<(Seq<char>, Seq<char>)> {
    v.map_values(|a: (String, String)| (a.0@, a.1@))
}

/// An item's content with its file moved to where it was unpacked: an image
/// with a path, or an SVG with a non-empty path, whose path names an
/// unpacked asset gets that asset's new path; anything else is unchanged.
pub open spec fn relocated(c: ContentModel, assets: Seq<(Seq<char>, Seq<char>)>) -> ContentModel {
    match c {
        ContentModel::Image(ib) => match ib.image_path {
            Some(p) => match asset_lookup(assets, p) {
                Some(t) => ContentModel::Image(ImageModel { image_path: Some(t), ..ib }),
                None => c,
            },
            None => c,
        },
        ContentModel::Svg(sb) => if sb.svg_path.len() > 0 {
            match asset_lookup(assets, sb.svg_path) {
                Some(t) => ContentModel::Svg(SvgModel { svg_path: t, ..sb }),
                None => c,
            }
        } else {
            c
        },
        _ => c,
    }
}

pub open spec fn relocated_items(items: Seq<ItemModel>, assets: Seq<(Seq<char>, Seq<char>)>) -> Seq<ItemModel> {
    items.map_values(|it: ItemModel| ItemModel { content: relocated(it.content, assets), ..it })
}

/// The pages with every item's file moved to where it was unpacked.
pub open spec fn relocated_pages(pages: Seq<PageModel>, assets: Seq<(Seq<char>, Seq<char>)>) -> Seq<PageModel> {
    pages.map_values(|p: PageModel| PageModel { items: relocated_items(p.items, assets), ..p })
}

fn find_asset(assets: &Vec<(String, String)>, name: &str) -> (r: Option<String>)
    ensures
        match r {
            Some(t) => asset_lookup(assets_view(assets@), name@) == Some(t@),
            None => asset_lookup(assets_view(assets@), name@) is None,
        },
{
    let ghost av = assets_view(assets@);
    let n = assets.len();
    assert(av.skip(0) =~= av);
    for k in 0..n
        invariant
            n == assets@.len(),
            av == assets_view(assets@),
            asset_lookup(av, name@) == asset_lookup(av.skip(k as int), name@),
    {
        proof {
            assert(av.skip(k as int)[0] == av[k as int]);
            assert(av.skip(k as int).drop_first() =~= av.skip(k + 1));
        }
        if same_text(assets[k].0.as_str(), name) {
            return Some(assets[k].1.clone());
        }
    }
    assert(av.skip(n as int) =~= Seq::<(Seq<char>, Seq<char>)>::empty());
    None
}

fn relocate_item(item: &mut Item, assets: &Vec<(String, String)>)
    ensures
        final(item).model() == (ItemModel {
            content: relocated(old(item).model().content, assets_view(assets@)),
            ..old(item).model()
        }),
{
    proof {
        crate::reflow::lemma_empty_bytes(Seq::<char>::empty());
    }
    match &mut item.content {
        ItemContent::Image(ib) => {
            let found = match &ib.image_path {
                Some(p) => find_asset(assets, p.as_str()),
                None => None,
            };
            match found {
                Some(t) => {
                    ib.image_path = Some(t);
                },
                None => {},
            }
        },
        ItemContent::Svg(sb) => {
            proof {
                crate::reflow::lemma_empty_bytes(sb.svg_path@);
            }
            if str_byte_len(sb.svg_path.as_str()) > 0 {
                match find_asset(assets, sb.svg_path.as_str()) {
                    Some(t) => {
                        sb.svg_path = t;
                    },
                    None => {},
                }
            }
        },
        _ => {},
    }
}

impl PersistenceManager {
    /// The archive entry for an image file of the given name.
    pub fn image_entry_name(file_name: &str) -> (r: String)
        ensures
            r@ == IMAGE_FOLDER@ + file_name@,
    {
        let mut r = IMAGE_FOLDER.to_owned();
        r.append(file_name);
        r
    }

    /// The archive entry for an SVG file of the given name.
    pub fn svg_entry_name(file_name: &str) -> (r: String)
        ensures
            r@ == SVG_FOLDER@ + file_name@,
    {
        let mut r = SVG_FOLDER.to_owned();
        r.append(file_name);
        r
    }

    /// The archive entry lies in the image or the SVG folder.
    pub fn is_asset_entry(name: &str) -> (r: bool)
        ensures
            r == (has_prefix(name@, IMAGE_FOLDER@) || has_prefix(name@, SVG_FOLDER@)),
    {
        starts_with_text(name, IMAGE_FOLDER) || starts_with_text(name, SVG_FOLDER)
    }

    /// Points every item of every page whose file was unpacked from the
    /// archive (listed as archive name and new path) at its new path.
    pub fn relocate_assets(doc: &mut Document, assets: &Vec<(String, String)>)
        ensures
            final(doc).model().pages == relocated_pages(old(doc).model().pages, assets_view(assets@)),
            final(doc).model().master_pages == old(doc).model().master_pages,
            final(doc).model().title == old(doc).model().title,
            final(doc).model().width == old(doc).model().width,
            final(doc).model().height == old(doc).model().height,
    {
        let ghost av = assets_view(assets@);
        let ghost pm0 = doc.model().pages;
        let np = doc.pages.len();
        for p in 0..np
            invariant
                np == doc.pages@.len(),
                pm0.len() == np,
                pm0 == old(doc).model().pages,
                av == assets_view(assets@),
                doc.model().master_pages == old(doc).model().master_pages,
                doc.model().title == old(doc).model().title,
                doc.model().width == old(doc).model().width,
                doc.model().height == old(doc).model().height,
                forall|q: int|
                    0 <= q < np ==> #[trigger] doc.model().pages[q] == if q < p {
                        relocated_pages(pm0, av)[q]
                    } else {
                        pm0[q]
                    },
        {
            let ni = doc.pages[p].items.len();
            let ghost start = doc.pages@;
            let ghost im0 = item_models(doc.pages@[p as int].items@);
            assert(doc.model().pages[p as int] == pm0[p as int]);
            for i in 0..ni
                invariant
                    ni == doc.pages@[p as int].items@.len(),
                    p < np,
                    np == doc.pages@.len(),
                    start.len() == np,
                    av == assets_view(assets@),
                    im0.len() == ni,
                    forall|q: int| 0 <= q < np && q != p ==> #[trigger] doc.pages@[q] == start[q],
                    doc.pages@[p as int].master_page == start[p as int].master_page,
                    doc.model().title == old(doc).model().title,
                    doc.model().width == old(doc).model().width,
                    doc.model().height == old(doc).model().height,
                    doc.model().master_pages == old(doc).model().master_pages,
                    forall|k: int|
                        0 <= k < ni ==> #[trigger] doc.pages@[p as int].items@[k].model() == if k < i {
                            relocated_items(im0, av)[k]
                        } else {
                            im0[k]
                        },
            {
                let ghost before = doc.pages@;
                assert(before[p as int].items@[i as int].model() == im0[i as int]);
                relocate_item(&mut doc.pages[p].items[i], assets);
                proof {
                    assert(doc.pages@ == before.update(p as int, doc.pages@[p as int]));
                    assert(doc.pages@[p as int].items@ == before[p as int].items@.update(
                        i as int,
                        doc.pages@[p as int].items@[i as int],
                    ));
                    assert forall|k: int| 0 <= k < ni implies #[trigger] doc.pages@[p as int].items@[k].model()
                        == if k < i + 1 {
                        relocated_items(im0, av)[k]
                    } else {
                        im0[k]
                    } by {
                        if k != i {
                            assert(doc.pages@[p as int].items@[k] == before[p as int].items@[k]);
                        } else {
                            assert(doc.pages@[p as int].items@[k].model() == ItemModel {
                                content: relocated(im0[k].content, av),
                                ..im0[k]
                            });
                            assert(relocated_items(im0, av)[k] == ItemModel {
                                content: relocated(im0[k].content, av),
                                ..im0[k]
                            });
                        }
                    }
                    assert forall|q: int| 0 <= q < np && q != p implies #[trigger] doc.pages@[q] == start[q] by {
                        assert(doc.pages@[q] == before[q]);
                    }
                }
            }
            proof {
                assert(item_models(doc.pages@[p as int].items@) =~= relocated_items(im0, av));
                assert forall|q: int| 0 <= q < np implies #[trigger] doc.model().pages[q] == if q < p + 1 {
                    relocated_pages(pm0, av)[q]
                } else {
                    pm0[q]
                } by {
                    assert(doc.model().pages[q] == doc.pages@[q].model());
                    if q != p {
                        assert(doc.pages@[q] == start[q]);
                        assert(page_models(start)[q] == start[q].model());
                    }
                }
            }
        }
        assert(doc.model().pages =~= relocated_pages(pm0, av));
    }
}

} // verus!
