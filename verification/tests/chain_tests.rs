use rscribus::chain::{
    chain_frame_textbox, collect_all_chain_roots, collect_chain, find_chain_root, is_in_chain,
    set_chain_frame_content, set_chain_links, strip_chain_downstream_texts,
};
use rscribus::chain_edit::{SplitPlan, UnlinkPlan};
use rscribus::document::{Document, Item, ItemContent, Page};
use rscribus::editing::{chain_roots_of, link_frames, relink_without};
use rscribus::format::{AttrValue, TextAttribute};
use rscribus::reflow::{
    can_begin_reflow, collect_chain_visible_lengths, frame_metrics, frame_visible_local_range,
    visible_length_of, Reflow, PROBE_LIMIT,
};
use rscribus::text_box::TextBox;

fn text_item(id: &str, text: &str) -> Item {
    Item {
        id: id.to_string(),
        x: 0,
        y: 0,
        width: 100.0f64.to_bits(),
        height: 50.0f64.to_bits(),
        rotation: 0,
        show_border: true,
        content: ItemContent::Text(TextBox::new(text.to_string())),
    }
}

fn doc_with(items: Vec<Item>) -> Document {
    let mut doc = Document::default();
    doc.pages = vec![Page { items, master_page: None }];
    doc
}

fn ids(v: &[&str]) -> Vec<String> {
    v.iter().map(|s| s.to_string()).collect()
}

fn tb<'a>(doc: &'a Document, id: &str) -> &'a TextBox {
    chain_frame_textbox(doc, id).expect("text frame")
}

fn three_chain(text: &str) -> Document {
    let mut doc = doc_with(vec![text_item("a", text), text_item("b", ""), text_item("c", "")]);
    set_chain_links(&mut doc, &ids(&["a", "b", "c"]));
    doc
}

/// Runs a whole reflow, giving each frame the capacity listed for it.
fn run_reflow(doc: &mut Document, start: &str, editing: Option<&str>, capacities: &[usize]) {
    assert!(can_begin_reflow(doc, start, editing));
    let mut r = match Reflow::begin(doc, start, editing) {
        Some(r) => r,
        None => return,
    };
    let mut k = 0;
    while !r.is_done() {
        let _ = r.probe();
        r.step(doc, capacities[k]);
        k += 1;
    }
    r.finish(doc);
}

#[test]
fn linking_frames_makes_a_chain() {
    let doc = three_chain("hello");
    assert_eq!(collect_chain(&doc, "a"), ids(&["a", "b", "c"]));
    assert_eq!(find_chain_root(&doc, "c"), "a");
    assert!(is_in_chain(&doc, "b"));
    assert_eq!(collect_all_chain_roots(&doc), ids(&["a"]));
    assert_eq!(tb(&doc, "b").prev_frame_id.as_deref(), Some("a"));
    assert_eq!(tb(&doc, "b").next_frame_id.as_deref(), Some("c"));
    assert_eq!(tb(&doc, "c").next_frame_id, None);
}

#[test]
fn a_loop_of_links_stops_the_walk() {
    let mut doc = three_chain("x");
    set_chain_links(&mut doc, &ids(&["a", "b"]));
    // b points back to a: a -> b -> a
    if let Some(ItemContent::Text(t)) = doc.pages[0].items.iter_mut().find(|i| i.id == "b").map(|i| &mut i.content) {
        t.next_frame_id = Some("a".to_string());
    }
    if let Some(ItemContent::Text(t)) = doc.pages[0].items.iter_mut().find(|i| i.id == "a").map(|i| &mut i.content) {
        t.prev_frame_id = Some("b".to_string());
    }
    assert_eq!(collect_chain(&doc, "a"), ids(&["a", "b"]));
    let root = find_chain_root(&doc, "a");
    assert!(root == "a" || root == "b");
}

#[test]
fn reflow_spreads_the_text_as_suffixes() {
    let mut doc = three_chain("hello world!");
    run_reflow(&mut doc, "b", None, &[5, 4, 3]);
    assert_eq!(tb(&doc, "a").text, "hello world!");
    assert_eq!(tb(&doc, "a").text_offset, 0);
    assert_eq!(tb(&doc, "b").text, " world!");
    assert_eq!(tb(&doc, "b").text_offset, 5);
    assert_eq!(tb(&doc, "c").text, "ld!");
    assert_eq!(tb(&doc, "c").text_offset, 9);
    assert!(!tb(&doc, "c").overflow_hint);

    let lengths = collect_chain_visible_lengths(&doc);
    assert_eq!(visible_length_of(&lengths, "a"), Some(5));
    assert_eq!(visible_length_of(&lengths, "b"), Some(4));
    assert_eq!(visible_length_of(&lengths, "c"), Some(3));
    assert_eq!(visible_length_of(&lengths, "zz"), None);
    assert_eq!(frame_visible_local_range(&doc, "b"), Some((0, 4)));
    assert_eq!(frame_visible_local_range(&doc, "c"), Some((0, 3)));
}

#[test]
fn reflowing_twice_changes_nothing() {
    let mut doc = three_chain("hello world, again");
    if let Some((p, i)) = rscribus::chain::locate(&doc.pages, "a") {
        if let ItemContent::Text(t) = &mut doc.pages[p].items[i].content {
            t.attributes.push(TextAttribute { start: 2, end: 40, value: AttrValue::Bold(true) });
        }
    }
    run_reflow(&mut doc, "a", None, &[6, 5, 3]);
    let once: Vec<(String, usize, usize, bool)> = ["a", "b", "c"]
        .iter()
        .map(|id| {
            let t = tb(&doc, id);
            (t.text.clone(), t.text_offset, t.attributes.len(), t.overflow_hint)
        })
        .collect();
    run_reflow(&mut doc, "c", None, &[6, 5, 3]);
    let twice: Vec<(String, usize, usize, bool)> = ["a", "b", "c"]
        .iter()
        .map(|id| {
            let t = tb(&doc, id);
            (t.text.clone(), t.text_offset, t.attributes.len(), t.overflow_hint)
        })
        .collect();
    assert_eq!(once, twice);
    assert_eq!(tb(&doc, "c").text, ", again");
    assert_eq!(tb(&doc, "a").attributes[0].end, 18);
    assert!(tb(&doc, "c").overflow_hint);
}

#[test]
fn last_frame_overflow_is_recorded() {
    let mut doc = three_chain("abcdefghij");
    run_reflow(&mut doc, "a", None, &[3, 3, 2]);
    assert_eq!(tb(&doc, "c").text, "ghij");
    assert!(tb(&doc, "c").overflow_hint);
}

#[test]
fn probe_cuts_long_text_at_a_character() {
    let long: String = std::iter::repeat("é").take(PROBE_LIMIT).collect();
    let mut doc = three_chain(&long);
    let r = Reflow::begin(&mut doc, "a", None).expect("reflow");
    let (probe, _) = r.probe().expect("probe");
    assert_eq!(probe.len(), PROBE_LIMIT);
    assert!(probe.chars().all(|c| c == 'é'));
}

#[test]
fn single_frame_needs_no_reflow() {
    let mut doc = doc_with(vec![text_item("solo", "text")]);
    assert!(Reflow::begin(&mut doc, "solo", None).is_none());
    assert_eq!(frame_visible_local_range(&doc, "solo"), Some((0, 4)));
}

#[test]
fn editing_a_later_frame_rebuilds_the_text_from_its_offset() {
    let mut doc = three_chain("hello world!");
    run_reflow(&mut doc, "a", None, &[6, 3, 0]);
    // The user types in frame b, whose text is the suffix from offset 6.
    set_chain_frame_content(&mut doc, "b", "WORLD!".to_string(), Vec::new(), 6);
    run_reflow(&mut doc, "b", Some("b"), &[6, 6, 0]);
    assert_eq!(tb(&doc, "a").text, "hello WORLD!");
}

#[test]
fn older_slice_layout_is_joined() {
    let mut doc = three_chain("one ");
    set_chain_frame_content(&mut doc, "b", "two ".to_string(), Vec::new(), 4);
    set_chain_frame_content(
        &mut doc,
        "c",
        "three".to_string(),
        vec![TextAttribute { start: 0, end: 5, value: AttrValue::Bold(true) }],
        8,
    );
    run_reflow(&mut doc, "a", None, &[4, 4, 5]);
    assert_eq!(tb(&doc, "a").text, "one two three");
    let a = tb(&doc, "a");
    assert_eq!(a.attributes.len(), 1);
    assert_eq!((a.attributes[0].start, a.attributes[0].end), (8, 13));
}

#[test]
fn reflow_refuses_an_edit_offset_inside_a_character() {
    let mut doc = three_chain("é and more");
    set_chain_frame_content(&mut doc, "b", "x".to_string(), Vec::new(), 1);
    assert!(!can_begin_reflow(&doc, "a", Some("b")));
}

#[test]
fn frame_metrics_fall_back_for_missing_frames() {
    let doc = three_chain("x");
    let m = frame_metrics(&doc, "a");
    assert_eq!(m.font_description, "Sans 11");
    assert_eq!(f64::from_bits(m.width), 100.0);
    let m = frame_metrics(&doc, "missing");
    assert_eq!(f64::from_bits(m.width), 100.0);
    assert_eq!(f64::from_bits(m.height), 100.0);
    assert_eq!(f64::from_bits(m.padding), 0.0);
    assert_eq!(f64::from_bits(m.line_spacing), 1.0);
}

#[test]
fn stripping_keeps_only_the_first_frame_text() {
    let mut doc = three_chain("hello world!");
    run_reflow(&mut doc, "a", None, &[5, 4, 0]);
    strip_chain_downstream_texts(&mut doc);
    assert_eq!(tb(&doc, "a").text, "hello world!");
    assert_eq!(tb(&doc, "b").text, "");
    assert_eq!(tb(&doc, "b").text_offset, 5);
    assert_eq!(tb(&doc, "c").text, "");
    assert_eq!(tb(&doc, "c").text_offset, 9);
}

#[test]
fn linking_needs_a_free_target() {
    let mut doc = doc_with(vec![text_item("a", "x"), text_item("b", ""), text_item("c", "")]);
    assert!(link_frames(&mut doc, "a", "b"));
    assert_eq!(tb(&doc, "a").next_frame_id.as_deref(), Some("b"));
    assert_eq!(tb(&doc, "b").prev_frame_id.as_deref(), Some("a"));
    assert!(!link_frames(&mut doc, "c", "b"));
    assert!(!link_frames(&mut doc, "a", "nothing"));
}

#[test]
fn unlinking_a_middle_frame_splits_the_text_three_ways() {
    let mut doc = three_chain("hello world!");
    run_reflow(&mut doc, "a", None, &[5, 4, 0]);
    let plan = UnlinkPlan::plan(&doc, "b").expect("plan");
    assert!(plan.is_clean());
    assert_eq!(plan.unlink_left(&mut doc), None);
    assert_eq!(plan.unlink_rest(&mut doc), None);
    assert_eq!(tb(&doc, "a").text, "hello");
    assert_eq!(tb(&doc, "b").text, " wor");
    assert_eq!(tb(&doc, "c").text, "ld!");
    assert!(!is_in_chain(&doc, "a"));
    assert!(!is_in_chain(&doc, "b"));
    assert!(!is_in_chain(&doc, "c"));
}

#[test]
fn unlink_plan_needs_a_chain() {
    let doc = doc_with(vec![text_item("solo", "text")]);
    assert!(UnlinkPlan::plan(&doc, "solo").is_none());
}

#[test]
fn splitting_at_the_cursor_makes_two_chains() {
    let mut doc = three_chain("hello world!");
    run_reflow(&mut doc, "a", None, &[5, 4, 0]);
    // cursor inside frame b after " w"
    if let Some(ItemContent::Text(t)) = doc.pages[0].items.iter_mut().find(|i| i.id == "b").map(|i| &mut i.content) {
        t.cursor_pos = 2;
    }
    let plan = SplitPlan::plan(&doc, "b").expect("plan");
    assert!(plan.is_clean());
    let (first, second) = plan.apply(&mut doc);
    assert_eq!(first.as_deref(), Some("a"));
    assert_eq!(second, None);
    assert_eq!(tb(&doc, "a").text, "hello w");
    assert_eq!(tb(&doc, "c").text, "orld!");
    assert_eq!(collect_chain(&doc, "a"), ids(&["a", "b"]));
    assert!(!is_in_chain(&doc, "c"));
    assert!(SplitPlan::plan(&doc, "b").is_none());
}

#[test]
fn deleting_frames_relinks_the_rest() {
    let mut doc = three_chain("hello world!");
    run_reflow(&mut doc, "a", None, &[5, 4, 0]);
    let gone = ids(&["a"]);
    assert_eq!(chain_roots_of(&doc, &ids(&["b", "c", "a"])), ids(&["a"]));
    let new_root = relink_without(&mut doc, "a", &gone);
    assert_eq!(new_root.as_deref(), Some("b"));
    assert_eq!(tb(&doc, "b").text, "hello world!");
    assert_eq!(tb(&doc, "b").text_offset, 0);
    assert_eq!(tb(&doc, "b").prev_frame_id, None);
    assert_eq!(collect_chain(&doc, "b"), ids(&["b", "c"]));
}
