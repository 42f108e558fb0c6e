use rscribus::display::display_len;
use rscribus::document::{default_show_border, master_page_name_for, Document, Item, ItemContent, ItemType, MasterPage, Page};
use rscribus::editing::{
    add_page, bring_forward, bring_to_front, delete_page, remove_items, send_backward, send_to_back,
    set_show_border,
};
use rscribus::image_box::{FitMode as ImageFit, ImageBox};
use rscribus::master_pages::{
    apply_master_page, clone_master_items, create_master_page, delete_master_page,
    master_page_to_edit, new_master_page, remove_master_page_from, rename_master_page,
    MasterPageMode,
};
use rscribus::persistence::{ensure_extension, PersistenceManager};
use rscribus::selection_info::{
    find_item, get_selected_fit_mode, get_selected_show_border, get_selected_svg_fit_mode,
    get_svg_path_info, is_selected_type, selected_image_frame_has_image,
    selected_text_frame_has_next_chain, selection_info, text_stats, SelectionInfo,
};
use rscribus::svg_box::{FitMode as SvgFit, SvgBox};
use rscribus::text_box::{Key, TextBox};
use rscribus::text_commands::{
    clear_format_command, key_modifies_text, selected_text_operation_range, set_style_flag,
    StyleFlag,
};
use rscribus::format::AttrValue;
use rscribus::text_flow::writable_runs;

fn item(id: &str, content: ItemContent) -> Item {
    Item {
        id: id.to_string(),
        x: 0,
        y: 0,
        width: 20.0f64.to_bits(),
        height: 10.0f64.to_bits(),
        rotation: 0,
        show_border: true,
        content,
    }
}

fn doc_with(items: Vec<Item>) -> Document {
    let mut doc = Document::default();
    doc.pages = vec![Page { items, master_page: None }];
    doc
}

fn order(doc: &Document) -> Vec<String> {
    doc.pages[0].items.iter().map(|i| i.id.clone()).collect()
}

fn ids(v: &[&str]) -> Vec<String> {
    v.iter().map(|s| s.to_string()).collect()
}

fn four() -> Document {
    doc_with(vec![
        item("a", ItemContent::Shape),
        item("b", ItemContent::Shape),
        item("c", ItemContent::Shape),
        item("d", ItemContent::Shape),
    ])
}

#[test]
fn new_document_has_one_a4_page_with_a_sample_frame() {
    let doc = Document::default();
    assert_eq!(doc.title, "New Document");
    assert_eq!(f64::from_bits(doc.width), 210.0);
    assert_eq!(f64::from_bits(doc.height), 297.0);
    assert_eq!(doc.pages.len(), 1);
    assert_eq!(doc.pages[0].items.len(), 1);
    assert!(matches!(doc.pages[0].items[0].content, ItemContent::Text(_)));
    assert!(default_show_border());
}

#[test]
fn pages_are_added_and_removed_but_never_the_last() {
    let mut doc = Document::default();
    add_page(&mut doc);
    assert_eq!(doc.pages.len(), 2);
    assert!(doc.pages[1].items.is_empty());
    assert!(!delete_page(&mut doc, 5));
    assert!(delete_page(&mut doc, 0));
    assert_eq!(doc.pages.len(), 1);
    assert!(!delete_page(&mut doc, 0));
}

#[test]
fn stacking_order_moves() {
    let mut doc = four();
    bring_to_front(&mut doc, &ids(&["a", "b"]));
    assert_eq!(order(&doc), ids(&["c", "d", "a", "b"]));
    send_to_back(&mut doc, &ids(&["a", "b"]));
    assert_eq!(order(&doc), ids(&["a", "b", "c", "d"]));
    bring_forward(&mut doc, &ids(&["a", "b"]));
    assert_eq!(order(&doc), ids(&["c", "a", "b", "d"]));
    send_backward(&mut doc, &ids(&["a", "b"]));
    assert_eq!(order(&doc), ids(&["a", "b", "c", "d"]));
    bring_forward(&mut doc, &ids(&["d", "zz"]));
    assert_eq!(order(&doc), ids(&["a", "b", "c", "d"]));
}

#[test]
fn borders_and_removal() {
    let mut doc = four();
    set_show_border(&mut doc, &ids(&["b", "d"]), false);
    assert!(doc.pages[0].items[0].show_border);
    assert!(!doc.pages[0].items[1].show_border);
    assert!(!get_selected_show_border(&doc, &ids(&["d", "a"])));
    assert!(get_selected_show_border(&doc, &ids(&["a"])));
    assert!(!get_selected_show_border(&doc, &Vec::new()));
    remove_items(&mut doc, &ids(&["a", "c"]));
    assert_eq!(order(&doc), ids(&["b", "d"]));
}

#[test]
fn master_pages_are_made_applied_renamed_and_deleted() {
    let mut doc = four();
    assert!(create_master_page(&mut doc, 0));
    assert_eq!(doc.master_pages.len(), 1);
    let mp = &doc.master_pages[0];
    assert_eq!(mp.name, "Master Page 1");
    assert_eq!(mp.items.len(), 4);
    assert_eq!(mp.id.len(), 36);
    assert_ne!(mp.items[0].id, "a");
    let id = mp.id.clone();
    apply_master_page(&mut doc, 0, id.clone());
    assert_eq!(doc.pages[0].master_page.as_deref(), Some(id.as_str()));
    rename_master_page(&mut doc, &id, "Cover".to_string());
    assert_eq!(doc.master_pages[0].name, "Cover");
    assert_eq!(clone_master_items(&doc, &id).len(), 4);
    assert!(clone_master_items(&doc, "nope").is_empty());
    remove_master_page_from(&mut doc, 0);
    assert_eq!(doc.pages[0].master_page, None);
    apply_master_page(&mut doc, 0, id.clone());
    delete_master_page(&mut doc, &id);
    assert!(doc.master_pages.is_empty());
    assert_eq!(doc.pages[0].master_page, None);
}

#[test]
fn fresh_ids_look_like_uuids() {
    let mut doc = Document::default();
    let id = new_master_page(&mut doc).expect("random source");
    let chars: Vec<char> = id.chars().collect();
    assert_eq!(chars.len(), 36);
    for (i, c) in chars.iter().enumerate() {
        if i == 8 || i == 13 || i == 18 || i == 23 {
            assert_eq!(*c, '-');
        } else {
            assert!(c.is_ascii_hexdigit() && !c.is_ascii_uppercase());
        }
    }
    assert_eq!(chars[14], '4');
    assert!("89ab".contains(chars[19]));
    assert_eq!(doc.master_pages[0].name, "Master Page 1");
    assert_eq!(master_page_name_for(12), "Master Page 12");
}

#[test]
fn master_page_to_edit_picks_or_makes_one() {
    let mut doc = Document::default();
    let made = master_page_to_edit(&mut doc, String::new()).expect("random source");
    assert_eq!(doc.master_pages.len(), 1);
    assert_eq!(doc.master_pages[0].id, made);
    let again = master_page_to_edit(&mut doc, String::new());
    assert_eq!(again, Some(made));
    assert_eq!(master_page_to_edit(&mut doc, "given".to_string()), Some("given".to_string()));
    assert_eq!(doc.master_pages.len(), 1);
}

#[test]
fn editing_a_master_page_swaps_the_first_page_and_back() {
    let mut doc = four();
    let mp = MasterPage::from_page("M".to_string(), &doc_with(vec![item("m1", ItemContent::Shape)]).pages[0])
        .expect("random source");
    let mp_id = mp.id.clone();
    doc.master_pages.push(mp);
    let mut mode = MasterPageMode::new();
    assert!(!mode.is_master_page_mode());
    assert!(mode.enter(&mut doc, mp_id.clone()));
    assert!(mode.is_master_page_mode());
    assert_eq!(doc.pages[0].items.len(), 1);
    assert!(!mode.enter(&mut doc, mp_id.clone()));
    // An edit while the master page is open.
    doc.pages[0].items.push(item("m2", ItemContent::Shape));
    assert!(mode.exit(&mut doc));
    assert_eq!(order(&doc), ids(&["a", "b", "c", "d"]));
    assert_eq!(doc.master_pages[0].items.len(), 2);
    assert!(!mode.exit(&mut doc));
}

#[test]
fn selection_queries() {
    let mut tb = TextBox::new("x".to_string());
    tb.next_frame_id = Some("other".to_string());
    let mut doc = doc_with(vec![
        item("t", ItemContent::Text(tb)),
        item("i", ItemContent::Image(ImageBox { image_path: Some("/p/pic.png".to_string()), fit_mode: ImageFit::FrameToImage })),
        item("s", ItemContent::Svg(SvgBox::new("/p/draw.svg".to_string()))),
    ]);
    assert!(selected_text_frame_has_next_chain(&doc, &ids(&["t"]), true));
    assert!(!selected_text_frame_has_next_chain(&doc, &ids(&["t"]), false));
    assert!(!selected_text_frame_has_next_chain(&doc, &ids(&["t", "i"]), true));
    assert!(is_selected_type(&doc, &ids(&["i"]), ItemType::ImageFrame));
    assert!(!is_selected_type(&doc, &ids(&["i"]), ItemType::Shape));
    assert!(selected_image_frame_has_image(&doc, &ids(&["i"])));
    assert_eq!(get_selected_fit_mode(&doc, &ids(&["i"])), Some(ImageFit::FrameToImage));
    assert_eq!(get_selected_fit_mode(&doc, &ids(&["s"])), None);
    assert_eq!(get_selected_svg_fit_mode(&doc, &ids(&["s"])), Some(SvgFit::Proportional));
    assert_eq!(get_svg_path_info(&doc, &ids(&["s"])), "Current path: /p/draw.svg");
    assert_eq!(get_svg_path_info(&doc, &ids(&["t"])), "");
    let (page, found) = find_item(&doc, "s").expect("found");
    assert_eq!(page, 0);
    assert_eq!(found.id, "s");
    assert!(find_item(&doc, "nope").is_none());
    if let ItemContent::Image(ib) = &mut doc.pages[0].items[1].content {
        ib.image_path = None;
    }
    assert!(!selected_image_frame_has_image(&doc, &ids(&["i"])));
}

#[test]
fn text_counts() {
    let s = text_stats("Hello big\n\nworld\n");
    assert_eq!(s.paragraphs, 2);
    assert_eq!(s.lines, 3);
    assert_eq!(s.words, 3);
    assert_eq!(s.characters, 17);
    let s = text_stats("");
    assert_eq!((s.paragraphs, s.lines, s.words, s.characters), (0, 0, 0, 0));
    let s = text_stats("  ünïcode  words ");
    assert_eq!(s.words, 2);
    assert_eq!(s.lines, 1);
    assert_eq!(s.characters, 17);
    assert_eq!(text_stats("é").characters, 1);
}

#[test]
fn selection_summary() {
    let doc = doc_with(vec![item("t", ItemContent::Text(TextBox::new("two words".to_string()))), item("sh", ItemContent::Shape)]);
    assert!(matches!(selection_info(&doc, &Vec::new()), SelectionInfo::Nothing));
    assert!(matches!(selection_info(&doc, &ids(&["t", "sh"])), SelectionInfo::Several(2)));
    match selection_info(&doc, &ids(&["t"])) {
        SelectionInfo::Text { width, stats, .. } => {
            assert_eq!(f64::from_bits(width), 20.0);
            assert_eq!(stats.words, 2);
        }
        _ => panic!("expected a text frame"),
    }
    assert!(matches!(selection_info(&doc, &ids(&["sh"])), SelectionInfo::Shape { .. }));
    assert!(matches!(selection_info(&doc, &ids(&["zz"])), SelectionInfo::Nothing));
}

#[test]
fn keys_that_change_text() {
    assert!(key_modifies_text(&Key::BackSpace, false));
    assert!(key_modifies_text(&Key::Other(Some('q')), false));
    assert!(!key_modifies_text(&Key::Other(Some('q')), true));
    assert!(!key_modifies_text(&Key::Other(Some('\u{7}')), false));
    assert!(!key_modifies_text(&Key::Left, false));
    assert!(!key_modifies_text(&Key::Other(None), false));
}

#[test]
fn style_commands_follow_editing_state() {
    let mut tb = TextBox::new("hello world".to_string());
    tb.cursor_pos = 2;
    // Editing without a selection: the word at the cursor.
    assert!(!set_style_flag(&mut tb, StyleFlag::Bold, true, None, true));
    assert_eq!((tb.attributes[0].start, tb.attributes[0].end), (0, 5));
    // Already bold there: nothing changes.
    assert!(!set_style_flag(&mut tb, StyleFlag::Bold, true, None, true));
    assert_eq!(tb.attributes.len(), 1);
    // Outside editing, with a range: applies and asks to start editing.
    assert!(set_style_flag(&mut tb, StyleFlag::Italic, true, Some((6, 11)), false));
    assert!(matches!(tb.attributes[1].value, AttrValue::Italic(true)));
    assert!(!set_style_flag(&mut tb, StyleFlag::Underline, true, Some((3, 3)), false));
    assert!(clear_format_command(&mut tb, Some((0, 11)), false));
    assert!(tb.attributes.is_empty());
    assert!(!clear_format_command(&mut tb, None, false));
}

#[test]
fn operation_range_depends_on_editing() {
    let mut tb = TextBox::new("one two".to_string());
    tb.cursor_pos = 5;
    let doc = doc_with(vec![item("t", ItemContent::Text(tb))]);
    assert_eq!(selected_text_operation_range(&doc, "t", true), Some((4, 7)));
    assert_eq!(selected_text_operation_range(&doc, "t", false), Some((0, 7)));
    assert_eq!(selected_text_operation_range(&doc, "none", false), None);
}

#[test]
fn archive_names_and_extensions() {
    assert_eq!(PersistenceManager::image_entry_name("a.png"), "images/a.png");
    assert_eq!(PersistenceManager::svg_entry_name("b.svg"), "svgs/b.svg");
    assert!(PersistenceManager::is_asset_entry("images/a.png"));
    assert!(PersistenceManager::is_asset_entry("svgs/b.svg"));
    assert!(!PersistenceManager::is_asset_entry("document.json"));
    assert!(!PersistenceManager::is_asset_entry("image"));
    assert_eq!(ensure_extension("/tmp/doc".to_string(), "rsp"), "/tmp/doc.rsp");
    assert_eq!(ensure_extension("/tmp/doc.rsp".to_string(), "rsp"), "/tmp/doc.rsp");
    assert_eq!(ensure_extension("/tmp/docrsp".to_string(), "rsp"), "/tmp/docrsp.rsp");
    assert_eq!(ensure_extension("/tmp/é.pdf".to_string(), "pdf"), "/tmp/é.pdf");
}

#[test]
fn unpacked_assets_are_relocated() {
    let mut doc = doc_with(vec![
        item("i", ItemContent::Image(ImageBox { image_path: Some("images/a.png".to_string()), fit_mode: ImageFit::ImageToFrame })),
        item("s", ItemContent::Svg(SvgBox::new("svgs/b.svg".to_string()))),
        item("e", ItemContent::Svg(SvgBox::new(String::new()))),
        item("k", ItemContent::Image(ImageBox { image_path: Some("images/kept.png".to_string()), fit_mode: ImageFit::ImageToFrame })),
    ]);
    let assets = vec![
        ("images/a.png".to_string(), "/tmp/x/images/a.png".to_string()),
        ("svgs/b.svg".to_string(), "/tmp/x/svgs/b.svg".to_string()),
    ];
    PersistenceManager::relocate_assets(&mut doc, &assets);
    let paths: Vec<String> = doc.pages[0].items.iter().map(|it| match &it.content {
        ItemContent::Image(ib) => ib.image_path.clone().unwrap_or_default(),
        ItemContent::Svg(sb) => sb.svg_path.clone(),
        _ => String::new(),
    }).collect();
    assert_eq!(paths, ids(&["/tmp/x/images/a.png", "/tmp/x/svgs/b.svg", "", "images/kept.png"]));
}

#[test]
fn fully_writable_mask_row_stays_available() {
    let mask = vec![255u8; 12];
    let row = &mask[4..8];
    let runs = writable_runs(row, 4);
    assert_eq!(runs.len(), 1);
    assert_eq!((runs[0].0 as f64, (runs[0].1 - runs[0].0) as f64), (0.0, 4.0));
}

#[test]
fn mask_runs_are_maximal() {
    let row = [0u8, 200, 255, 0, 129, 0, 0, 130];
    assert_eq!(writable_runs(&row, 8), vec![(1, 3), (4, 5), (7, 8)]);
    assert_eq!(writable_runs(&row, 3), vec![(1, 3)]);
    assert!(writable_runs(&row, 1).is_empty());
}

#[test]
fn faint_mask_pixels_are_writable() {
    let row = vec![100u8; 4];
    assert_eq!(writable_runs(&row, 4), vec![(0, 4)]);
    assert_eq!(writable_runs(&[1u8, 0, 1], 3), vec![(0, 1), (2, 3)]);
}

#[test]
fn drawn_text_length() {
    let mut tb = TextBox::new("a".repeat(300));
    tb.cursor_pos = 10;
    assert_eq!(display_len(&tb, None, false), 300);
    assert_eq!(display_len(&tb, Some(50), false), 50);
    assert_eq!(display_len(&tb, Some(50), true), 210);
    assert_eq!(display_len(&tb, Some(999), true), 300);
    tb.cursor_pos = 0;
    assert_eq!(display_len(&tb, Some(250), true), 250);
    let mut wide = TextBox::new("é".repeat(200));
    wide.cursor_pos = 1;
    assert_eq!(display_len(&wide, Some(10), true), 200);
    let cut = wide.truncated_copy(10);
    assert_eq!(cut.text.chars().count(), 5);
}
