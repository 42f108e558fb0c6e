//! What the side panel says about the selected items.
use vstd::prelude::*;
use crate::chain::{box_by_id, find_loc, item_by_id, lemma_find_loc, locate, ids_view};
use crate::document::{ContentModel, Document, Item, ItemContent, ItemModel, ItemType, PageModel, content_type};
use crate::image_box::FitMode as ImageFit;
use crate::svg_box::FitMode as SvgFit;
use crate::utf8_text::{char_is_whitespace, chars_of, is_whitespace_char};

verus! {

// ── Finding the selected item ────────────────────────────────────────────────

fn item_ref<'a>(doc: &'a Document, id: &str) -> (r: Option<&'a Item>)
    ensures
        match r {
            Some(it) => item_by_id(doc.model().pages, id@) == Some(it.model()),
            None => item_by_id(doc.model().pages, id@) is None,
        },
{
    match locate(&doc.pages, id) {
        Some((p, i)) => {
            proof {
                lemma_find_loc(doc.model().pages, id@);
                assert(doc.model().pages[p as int].items[i as int] == doc.pages@[p as int].items@[i as int].model());
            }
            Some(&doc.pages[p].items[i])
        },
        None => None,
    }
}

/// The page index and a copy of the first item with the given id.
pub fn find_item(doc: &Document, id: &str) -> (r: Option<(usize, Item)>)
    ensures
        match r {
            Some((p, it)) => find_loc(doc.model().pages, id@) is Some && find_loc(
                doc.model().pages,
                id@,
            ).unwrap().0 == p && item_by_id(doc.model().pages, id@) == Some(it.model()),
            None => item_by_id(doc.model().pages, id@) is None,
        },
{
    match locate(&doc.pages, id) {
        Some((p, i)) => {
            proof {
                lemma_find_loc(doc.model().pages, id@);
                assert(doc.model().pages[p as int].items[i as int] == doc.pages@[p as int].items@[i as int].model());
            }
            Some((p, doc.pages[p].items[i].clone_item()))
        },
        None => None,
    }
}

/// The item that the panel describes: the first item with the selected id,
/// when exactly one item is selected.
pub open spec fn single_selected(pages: Seq<PageModel>, ids: Seq<Seq<char>>) -> Option<ItemModel> {
    if ids.len() == 1 {
        item_by_id(pages, ids[0])
    } else {
        None
    }
}

fn single_ref<'a>(doc: &'a Document, ids: &Vec<String>) -> (r: Option<&'a Item>)
    ensures
        match r {
            Some(it) => single_selected(doc.model().pages, ids_view(ids@)) == Some(it.model()),
            None => single_selected(doc.model().pages, ids_view(ids@)) is None,
        },
{
    if ids.len() != 1 {
        return None;
    }
    assert(ids_view(ids@)[0] == ids@[0]@);
    item_ref(doc, ids[0].as_str())
}

/// One text frame is selected, being edited, and flows on into a next frame.
pub fn selected_text_frame_has_next_chain(doc: &Document, ids: &Vec<String>, is_editing: bool) -> (r: bool)
    ensures
        r == (is_editing && match single_selected(doc.model().pages, ids_view(ids@)) {
            Some(it) => match it.content {
                ContentModel::Text(b) => b.frame.next_frame_id is Some,
                _ => false,
            },
            None => false,
        }),
{
    if !is_editing {
        return false;
    }
    match single_ref(doc, ids) {
        Some(item) => match &item.content {
            ItemContent::Text(tb) => tb.next_frame_id.is_some(),
            _ => false,
        },
        None => false,
    }
}

/// One item is selected and it is of the kind `ty`.
pub fn is_selected_type(doc: &Document, ids: &Vec<String>, ty: ItemType) -> (r: bool)
    ensures
        r == match single_selected(doc.model().pages, ids_view(ids@)) {
            Some(it) => content_type(it.content) == ty,
            None => false,
        },
{
    match single_ref(doc, ids) {
        Some(item) => item.content.item_type() == ty,
        None => false,
    }
}

/// One image frame is selected and it holds an image.
pub fn selected_image_frame_has_image(doc: &Document, ids: &Vec<String>) -> (r: bool)
    ensures
        r == match single_selected(doc.model().pages, ids_view(ids@)) {
            Some(it) => match it.content {
                ContentModel::Image(ib) => ib.image_path is Some,
                _ => false,
            },
            None => false,
        },
{
    match single_ref(doc, ids) {
        Some(item) => match &item.content {
            ItemContent::Image(ib) => ib.image_path.is_some(),
            _ => false,
        },
        None => false,
    }
}

/// The fit mode of the one selected image frame.
pub fn get_selected_fit_mode(doc: &Document, ids: &Vec<String>) -> (r: Option<ImageFit>)
    ensures
        r == match single_selected(doc.model().pages, ids_view(ids@)) {
            Some(it) => match it.content {
                ContentModel::Image(ib) => Some(ib.fit_mode),
                _ => None,
            },
            None => None,
        },
{
    match single_ref(doc, ids) {
        Some(item) => match &item.content {
            ItemContent::Image(ib) => Some(ib.fit_mode()),
            _ => None,
        },
        None => None,
    }
}

/// The fit mode of the one selected SVG frame.
pub fn get_selected_svg_fit_mode(doc: &Document, ids: &Vec<String>) -> (r: Option<SvgFit>)
    ensures
        r == match single_selected(doc.model().pages, ids_view(ids@)) {
            Some(it) => match it.content {
                ContentModel::Svg(sb) => Some(sb.fit_mode),
                _ => None,
            },
            None => None,
        },
{
    match single_ref(doc, ids) {
        Some(item) => match &item.content {
            ItemContent::Svg(sb) => Some(sb.fit_mode()),
            _ => None,
        },
        None => None,
    }
}

/// "Current path: " followed by the path of the one selected SVG frame; empty
/// otherwise.
pub fn get_svg_path_info(doc: &Document, ids: &Vec<String>) -> (r: String)
    ensures
        r@ == match single_selected(doc.model().pages, ids_view(ids@)) {
            Some(it) => match it.content {
                ContentModel::Svg(sb) => "Current path: "@ + sb.svg_path,
                _ => Seq::empty(),
            },
            None => Seq::empty(),
        },
{
    match single_ref(doc, ids) {
        Some(item) => match &item.content {
            ItemContent::Svg(sb) => {
                let mut s = "Current path: ".to_owned();
                s.append(sb.svg_path.as_str());
                s
            },
            _ => String::new(),
        },
        None => String::new(),
    }
}

/// Whether the first selected item shows its border; false with nothing
/// selected or no such item.
pub fn get_selected_show_border(doc: &Document, ids: &Vec<String>) -> (r: bool)
    ensures
        r == (ids@.len() > 0 && match item_by_id(doc.model().pages, ids@[0]@) {
            Some(it) => it.show_border,
            None => false,
        }),
{
    if ids.len() == 0 {
        return false;
    }
    match item_ref(doc, ids[0].as_str()) {
        Some(item) => item.show_border,
        None => false,
    }
}

// ── Counting a text ──────────────────────────────────────────────────────────

/// How many runs of characters that are not separators `s` holds: the
/// characters that are not separators and start the text or follow one.
pub open spec fn run_count(s: Seq<char>, sep: spec_fn(char) -> bool) -> nat
    decreases s.len(),
{
    if s.len() == 0 {
        0
    } else {
        run_count(s.drop_last(), sep) + if !sep(s.last()) && (s.len() == 1 || sep(
            s[s.len() - 2],
        )) {
            1nat
        } else {
            0nat
        }
    }
}

/// How many line feeds `s` holds.
pub open spec fn line_feeds(s: Seq<char>) -> nat
    decreases s.len(),
{
    if s.len() == 0 {
        0
    } else {
        line_feeds(s.drop_last()) + if s.last() == '\n' {
            1nat
        } else {
            0nat
        }
    }
}

proof fn lemma_line_feeds_len(s: Seq<char>)
    ensures
        line_feeds(s) <= s.len(),
    decreases s.len(),
{
    if s.len() > 0 {
        lemma_line_feeds_len(s.drop_last());
    }
}

/// Paragraphs, lines, words and bytes of a text.
pub struct TextStats {
    pub paragraphs: usize,
    pub lines: usize,
    pub words: usize,
    pub characters: usize,
}

/// The counts shown for a text: paragraphs are the non-empty pieces between
/// line feeds, lines are the pieces that a final line feed does not leave
/// empty, words the runs of non-whitespace, and characters the characters.
pub open spec fn stats_match(r: TextStats, s: Seq<char>) -> bool {
    &&& r.paragraphs == run_count(s, |c: char| c == '\n')
    &&& r.lines == line_feeds(s) + if s.len() > 0 && s.last() != '\n' {
        1nat
    } else {
        0nat
    }
    &&& r.words == run_count(s, |c: char| is_whitespace_char(c))
    &&& r.characters == s.len()
}

/// Counts the paragraphs, lines, words and bytes of a text.
pub fn text_stats(text: &str) -> (r: TextStats)
    ensures
        stats_match(r, text@),
{
    let chars = chars_of(text);
    let ghost s = text@;
    let n = chars.len();
    let mut paragraphs: usize = 0;
    let mut words: usize = 0;
    let mut feeds: usize = 0;
    for k in 0..n
        invariant
            n == s.len(),
            chars@ == s,
            paragraphs == run_count(s.take(k as int), |c: char| c == '\n'),
            words == run_count(s.take(k as int), |c: char| is_whitespace_char(c)),
            feeds == line_feeds(s.take(k as int)),
            paragraphs <= k,
            words <= k,
            feeds <= k,
    {
        let c = chars[k];
        let ws = char_is_whitespace(c);
        proof {
            let t = s.take(k + 1);
            assert(t.drop_last() =~= s.take(k as int));
            assert(t.last() == c);
            if k > 0 {
                assert(t[t.len() - 2] == s[k - 1]);
            }
        }
        let starts_para = c != '\n' && (k == 0 || chars[k - 1] == '\n');
        if starts_para {
            paragraphs = paragraphs + 1;
        }
        let starts_word = !ws && (k == 0 || char_is_whitespace(chars[k - 1]));
        if starts_word {
            words = words + 1;
        }
        if c == '\n' {
            feeds = feeds + 1;
        }
    }
    assert(s.take(n as int) =~= s);
    proof {
        if n > 0 {
            lemma_line_feeds_len(s.drop_last());
        }
    }
    let lines = if n > 0 && chars[n - 1] != '\n' {
        feeds + 1
    } else {
        feeds
    };
    TextStats { paragraphs, lines, words, characters: n }
}

// ── The panel's summary ──────────────────────────────────────────────────────

/// What the panel says about the selection; sizes are the bit patterns of
/// the item's width and height in millimetres.
pub enum SelectionInfo {
    Nothing,
    Several(usize),
    Text { width: u64, height: u64, stats: TextStats },
    Image { width: u64, height: u64, path: Option<String> },
    Svg { width: u64, height: u64, path: String },
    Shape { width: u64, height: u64 },
}

/// The summary matches the selection: nothing selected or found, a count for
/// several, otherwise the kind and size of the item with its text counts or
/// file path.
pub open spec fn info_match(r: SelectionInfo, pages: Seq<PageModel>, ids: Seq<Seq<char>>) -> bool {
    if ids.len() == 0 {
        r is Nothing
    } else if ids.len() > 1 {
        r == SelectionInfo::Several(ids.len() as usize)
    } else {
        match item_by_id(pages, ids[0]) {
            None => r is Nothing,
            Some(it) => match it.content {
                ContentModel::Text(b) => match r {
                    SelectionInfo::Text { width, height, stats } => width == it.width && height
                        == it.height && stats_match(stats, b.state.text),
                    _ => false,
                },
                ContentModel::Image(ib) => match r {
                    SelectionInfo::Image { width, height, path } => width == it.width && height
                        == it.height && match path {
                        Some(p) => ib.image_path == Some(p@),
                        None => ib.image_path is None,
                    },
                    _ => false,
                },
                ContentModel::Svg(sb) => match r {
                    SelectionInfo::Svg { width, height, path } => width == it.width && height
                        == it.height && path@ == sb.svg_path,
                    _ => false,
                },
                ContentModel::Shape => r == SelectionInfo::Shape {
                    width: it.width,
                    height: it.height,
                },
            },
        }
    }
}

/// Summarises the selection for the panel.
pub fn selection_info(doc: &Document, ids: &Vec<String>) -> (r: SelectionInfo)
    ensures
        info_match(r, doc.model().pages, ids_view(ids@)),
{
    if ids.len() == 0 {
        return SelectionInfo::Nothing;
    }
    if ids.len() > 1 {
        return SelectionInfo::Several(ids.len());
    }
    assert(ids_view(ids@)[0] == ids@[0]@);
    match item_ref(doc, ids[0].as_str()) {
        None => SelectionInfo::Nothing,
        Some(item) => match &item.content {
            ItemContent::Text(tb) => SelectionInfo::Text {
                width: item.width,
                height: item.height,
                stats: text_stats(tb.text.as_str()),
            },
            ItemContent::Image(ib) => SelectionInfo::Image {
                width: item.width,
                height: item.height,
                path: match &ib.image_path {
                    Some(p) => Some(p.clone()),
                    None => None,
                },
            },
            ItemContent::Svg(sb) => SelectionInfo::Svg {
                width: item.width,
                height: item.height,
                path: sb.svg_path.clone(),
            },
            ItemContent::Shape => SelectionInfo::Shape { width: item.width, height: item.height },
        },
    }
}

} // verus!
