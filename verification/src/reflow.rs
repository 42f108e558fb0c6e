//! Flowing one text through the frames of a chain.
//!
//! A chain keeps its whole text in its first frame; every later frame holds
//! the rest of the text from the point where the frame before it is full, and
//! records that point as its offset. Filling the frames in turn needs a text
//! measurement that only the layout engine can make, so a reflow is a small
//! machine: `Reflow::begin` gathers the chain's text, `probe` says what to
//! measure for the next frame, `step` fills that frame with the answer, and
//! `finish` records whether the last frame overflows.
use vstd::prelude::*;
use crate::chain::{
    box_by_id, item_by_id, chain_of, chain_roots, all_items, collect_all_chain_roots, in_chain,
    is_in_chain, chain_root, collect_chain, contains_id, find_chain_root, ids_view,
    is_chain_from, lemma_box_after_update, next_of, prev_of, lemma_chain_root, lemma_find_loc, locate, set_chain_frame_content,
    update_box, with_content, with_pages, chain_frame_textbox,
};
use crate::document::{item_models, page_models, ContentModel, Document, ItemContent, ItemModel, PageModel};
use crate::format::{
    clone_attrs, lemma_slice_twice, move_fits, moved_all, shift_attrs, slice_attrs_for_range, slice_seq,
    TextAttribute,
};
use crate::text_box::{BoxModel, FrameProps, TextAlign, DEFAULT_FONT, UNIT_LINE_SPACING_BITS};
use crate::utf8_text::{
    boundary, byte_len, char_index, floor_boundary, floor_char_boundary, lemma_boundary_at,
    lemma_boundary_index, lemma_byte_pos_mono, lemma_encode_concat, lemma_floor_boundary,
    lemma_split_bytes, same_text, str_byte_len, substring,
};

verus! {

/// Longest piece of text handed to one measurement; far more than any frame holds.
pub const PROBE_LIMIT: usize = 15000;

// ── What a reflow reads from the frames ──────────────────────────────────────

/// The text of the frame with the given id (empty when it is no text frame).
pub open spec fn frame_text(pages: Seq<PageModel>, id: Seq<char>) -> Seq<char> {
    match box_by_id(pages, id) {
        Some(b) => b.state.text,
        None => Seq::empty(),
    }
}

/// The spans of the frame with the given id (none when it is no text frame).
pub open spec fn frame_attrs(pages: Seq<PageModel>, id: Seq<char>) -> Seq<TextAttribute> {
    match box_by_id(pages, id) {
        Some(b) => b.state.attributes,
        None => Seq::empty(),
    }
}

/// The offset of the frame with the given id (0 when it is no text frame).
pub open spec fn frame_offset(pages: Seq<PageModel>, id: Seq<char>) -> usize {
    match box_by_id(pages, id) {
        Some(b) => b.frame.text_offset,
        None => 0,
    }
}

/// The characters of `s` before the byte position `b`.
pub open spec fn prefix_bytes(s: Seq<char>, b: int) -> Seq<char> {
    s.take(char_index(s, b))
}

/// The characters of `s` from the byte position `b` on.
pub open spec fn suffix_bytes(s: Seq<char>, b: int) -> Seq<char> {
    s.skip(char_index(s, b))
}

/// Frames stored in the older layout, where each frame held only its own
/// slice: some later frame's text runs past the end of the first frame's.
pub open spec fn legacy_layout(pages: Seq<PageModel>, c: Seq<Seq<char>>) -> bool {
    exists|k: int|
        1 <= k < c.len() && #[trigger] frame_text(pages, c[k]).len() > 0 && byte_len(
            frame_text(pages, c[0]),
        ) < frame_offset(pages, c[k]) + byte_len(frame_text(pages, c[k]))
}

/// The texts of the frames `c`, one after another.
pub open spec fn joined_text(pages: Seq<PageModel>, c: Seq<Seq<char>>) -> Seq<char>
    decreases c.len(),
{
    if c.len() == 0 {
        Seq::empty()
    } else {
        joined_text(pages, c.drop_last()) + frame_text(pages, c.last())
    }
}

/// The spans of the frames `c`, each moved to where its frame's text lands in
/// `joined_text`.
pub open spec fn joined_attrs(pages: Seq<PageModel>, c: Seq<Seq<char>>) -> Seq<TextAttribute>
    decreases c.len(),
{
    if c.len() == 0 {
        Seq::empty()
    } else {
        joined_attrs(pages, c.drop_last()) + moved_all(
            frame_attrs(pages, c.last()),
            byte_len(joined_text(pages, c.drop_last())) as u32,
        )
    }
}

/// Every frame's spans can be moved to where its text lands when joined.
pub open spec fn join_fits(pages: Seq<PageModel>, c: Seq<Seq<char>>) -> bool {
    forall|k: int|
        0 <= k < c.len() ==> move_fits(
            frame_attrs(pages, #[trigger] c[k]),
            byte_len(joined_text(pages, c.take(k))) as u32,
        )
}

/// Where the text typed in frame `e` starts within the chain's text: its
/// offset, but not past the end of the first frame's text.
pub open spec fn edit_start(pages: Seq<PageModel>, root: Seq<char>, e: Seq<char>) -> int {
    if frame_offset(pages, e) < byte_len(frame_text(pages, root)) {
        frame_offset(pages, e) as int
    } else {
        byte_len(frame_text(pages, root)) as int
    }
}

/// The frame being edited takes part in the reflow of the chain `c`.
pub open spec fn edits_chain(c: Seq<Seq<char>>, editing: Option<Seq<char>>) -> bool {
    match editing {
        Some(e) => c.contains(e),
        None => false,
    }
}

/// The chain's whole text and spans, as a reflow gathers them: the first
/// frame's text before the edited frame's offset followed by the edited
/// frame's text while a later frame is being edited; all frames' texts
/// joined for the older layout; the first frame's text otherwise.
pub open spec fn gathered(pages: Seq<PageModel>, c: Seq<Seq<char>>, editing: Option<Seq<char>>) -> (
    Seq<char>,
    Seq<TextAttribute>,
) {
    let root = c[0];
    if edits_chain(c, editing) && editing.unwrap() != root {
        let e = editing.unwrap();
        let pe = edit_start(pages, root, e);
        (
            prefix_bytes(frame_text(pages, root), pe) + frame_text(pages, e),
            slice_seq(frame_attrs(pages, root), 0, pe as u32) + moved_all(
                frame_attrs(pages, e),
                pe as u32,
            ),
        )
    } else if !edits_chain(c, editing) && legacy_layout(pages, c) {
        (joined_text(pages, c), joined_attrs(pages, c))
    } else {
        (frame_text(pages, root), frame_attrs(pages, root))
    }
}

/// Gathering the chain's text cannot fail: the edited frame's offset falls on
/// a character of the first frame's text, and every span stays in range.
pub open spec fn gather_safe(pages: Seq<PageModel>, c: Seq<Seq<char>>, editing: Option<Seq<char>>) -> bool {
    let root = c[0];
    &&& edits_chain(c, editing) && editing.unwrap() != root ==> {
        let e = editing.unwrap();
        let pe = edit_start(pages, root, e);
        &&& boundary(frame_text(pages, root), pe)
        &&& pe <= u32::MAX
        &&& move_fits(frame_attrs(pages, e), pe as u32)
    }
    &&& !edits_chain(c, editing) && legacy_layout(pages, c) ==> join_fits(pages, c)
}

/// The chain's text can be gathered, and its span positions fit in `u32`.
pub open spec fn gather_ok(pages: Seq<PageModel>, c: Seq<Seq<char>>, editing: Option<Seq<char>>) -> bool {
    gather_safe(pages, c, editing) && byte_len(gathered(pages, c, editing).0) <= u32::MAX
}

/// The chain that a reflow started from `start` works on.
pub open spec fn reflow_chain_of(pages: Seq<PageModel>, start: Seq<char>) -> Seq<Seq<char>> {
    chain_of(pages, chain_root(pages, start))
}

/// A reflow started from `start` can run without failing.
pub open spec fn begin_ok(pages: Seq<PageModel>, start: Seq<char>, editing: Option<Seq<char>>) -> bool {
    reflow_chain_of(pages, start).len() >= 2 ==> gather_ok(
        pages,
        reflow_chain_of(pages, start),
        editing,
    )
}


pub open spec fn opt_str(o: Option<&str>) -> Option<Seq<char>> {
    match o {
        Some(s) => Some(s@),
        None => None,
    }
}

// ── Facts about byte positions ───────────────────────────────────────────────

pub proof fn lemma_cut_at(s: Seq<char>, b: int)
    requires
        boundary(s, b),
    ensures
        0 <= b <= byte_len(s),
        0 <= char_index(s, b) <= s.len(),
        byte_len(prefix_bytes(s, b)) == b,
        byte_len(suffix_bytes(s, b)) == byte_len(s) - b,
        boundary(s, 0),
        boundary(s, byte_len(s) as int),
        char_index(s, 0) == 0,
        char_index(s, byte_len(s) as int) == s.len(),
        s.subrange(char_index(s, b), s.len() as int) == suffix_bytes(s, b),
        s.subrange(0, char_index(s, b)) == prefix_bytes(s, b),
{
    lemma_boundary_index(s, b);
    let ci = char_index(s, b);
    lemma_split_bytes(s, ci);
    lemma_byte_pos_mono(s, 0, s.len() as int);
    lemma_byte_pos_mono(s, ci, s.len() as int);
    lemma_boundary_at(s, 0);
    lemma_boundary_at(s, s.len() as int);
    assert(s.subrange(ci, s.len() as int) =~= s.skip(ci));
    assert(s.subrange(0, ci) =~= s.take(ci));
}

/// A text is empty exactly when it has no bytes.
pub proof fn lemma_empty_bytes(s: Seq<char>)
    ensures
        (byte_len(s) == 0) == (s.len() == 0),
{
    lemma_byte_pos_mono(s, 0, s.len() as int);
}

// ── Gathering the chain's text ───────────────────────────────────────────────

/// The text, spans and offset of a frame, as a reflow reads them.
fn frame_snapshot(doc: &Document, id: &str) -> (r: (String, Vec<TextAttribute>, usize))
    ensures
        r.0@ == frame_text(doc.model().pages, id@),
        r.1@ == frame_attrs(doc.model().pages, id@),
        r.2 == frame_offset(doc.model().pages, id@),
{
    match chain_frame_textbox(doc, id) {
        Some(tb) => (tb.text.clone(), clone_attrs(&tb.attributes), tb.text_offset),
        None => (String::new(), Vec::new(), 0),
    }
}

fn is_legacy_layout(doc: &Document, chain: &Vec<String>) -> (r: bool)
    requires
        chain@.len() >= 1,
    ensures
        r == legacy_layout(doc.model().pages, ids_view(chain@)),
{
    let ghost pages = doc.model().pages;
    let ghost c = ids_view(chain@);
    let (root_text, _, _) = frame_snapshot(doc, chain[0].as_str());
    let root_len = str_byte_len(root_text.as_str());
    let n = chain.len();
    for k in 1..n
        invariant
            n == chain@.len(),
            c == ids_view(chain@),
            pages == doc.model().pages,
            root_len == byte_len(frame_text(pages, c[0])),
            forall|j: int|
                1 <= j < k ==> !(#[trigger] frame_text(pages, c[j]).len() > 0 && byte_len(
                    frame_text(pages, c[0]),
                ) < frame_offset(pages, c[j]) + byte_len(frame_text(pages, c[j]))),
    {
        let (t, _, off) = frame_snapshot(doc, chain[k].as_str());
        let len = str_byte_len(t.as_str());
        proof {
            lemma_empty_bytes(t@);
            assert(c[k as int] == chain@[k as int]@);
        }
        if len > 0 && (off > root_len || root_len - off < len) {
            return true;
        }
    }
    false
}

fn join_frames(doc: &Document, chain: &Vec<String>) -> (r: (String, Vec<TextAttribute>))
    requires
        join_fits(doc.model().pages, ids_view(chain@)),
    ensures
        r.0@ == joined_text(doc.model().pages, ids_view(chain@)),
        r.1@ == joined_attrs(doc.model().pages, ids_view(chain@)),
{
    let ghost pages = doc.model().pages;
    let ghost c = ids_view(chain@);
    let mut text = String::new();
    let mut attrs: Vec<TextAttribute> = Vec::new();
    let n = chain.len();
    assert(c.take(0) =~= Seq::<Seq<char>>::empty());
    for k in 0..n
        invariant
            n == chain@.len(),
            c == ids_view(chain@),
            pages == doc.model().pages,
            join_fits(pages, c),
            text@ == joined_text(pages, c.take(k as int)),
            attrs@ == joined_attrs(pages, c.take(k as int)),
    {
        let (t, a, _) = frame_snapshot(doc, chain[k].as_str());
        let off = str_byte_len(text.as_str());
        proof {
            assert(c[k as int] == chain@[k as int]@);
            assert(move_fits(frame_attrs(pages, c[k as int]), byte_len(joined_text(pages, c.take(k as int))) as u32));
        }
        let mut shifted = shift_attrs(&a, off);
        text.append(t.as_str());
        attrs.append(&mut shifted);
        proof {
            let ck = c.take(k + 1);
            assert(ck.drop_last() =~= c.take(k as int));
            assert(ck.last() == c[k as int]);
        }
    }
    assert(c.take(n as int) =~= c);
    (text, attrs)
}

/// The chain's whole text and spans, as `gathered` describes them.
fn gather(doc: &Document, chain: &Vec<String>, editing_id: Option<&str>) -> (r: (String, Vec<TextAttribute>))
    requires
        chain@.len() >= 1,
        gather_safe(doc.model().pages, ids_view(chain@), opt_str(editing_id)),
    ensures
        (r.0@, r.1@) == gathered(doc.model().pages, ids_view(chain@), opt_str(editing_id)),
{
    let ghost pages = doc.model().pages;
    let ghost c = ids_view(chain@);
    assert(c[0] == chain@[0]@);
    let editing_in_chain = match editing_id {
        Some(e) => contains_id(chain, e),
        None => false,
    };
    if editing_in_chain {
        let e = editing_id.unwrap();
        let (root_text, root_attrs, _) = frame_snapshot(doc, chain[0].as_str());
        if same_text(e, chain[0].as_str()) {
            return (root_text, root_attrs);
        }
        let (et, ea, eo) = frame_snapshot(doc, e);
        let root_len = str_byte_len(root_text.as_str());
        let pe = if eo < root_len {
            eo
        } else {
            root_len
        };
        proof {
            lemma_cut_at(root_text@, pe as int);
        }
        let mut text = substring(root_text.as_str(), 0, pe);
        text.append(et.as_str());
        let mut attrs = slice_attrs_for_range(&root_attrs, 0, pe);
        let mut shifted = shift_attrs(&ea, pe);
        attrs.append(&mut shifted);
        (text, attrs)
    } else if is_legacy_layout(doc, chain) {
        join_frames(doc, chain)
    } else {
        let (root_text, root_attrs, _) = frame_snapshot(doc, chain[0].as_str());
        (root_text, root_attrs)
    }
}

/// Moving every span right by `off` keeps its bounds in `u32`.
pub fn attrs_move_fit(attrs: &Vec<TextAttribute>, off: u32) -> (r: bool)
    ensures
        r == move_fits(attrs@, off),
{
    let n = attrs.len();
    for i in 0..n
        invariant
            n == attrs@.len(),
            forall|j: int|
                0 <= j < i ==> #[trigger] attrs@[j].start + off <= u32::MAX && attrs@[j].end + off
                    <= u32::MAX,
    {
        if attrs[i].start > u32::MAX - off || attrs[i].end > u32::MAX - off {
            return false;
        }
    }
    true
}

fn joined_spans_fit(doc: &Document, chain: &Vec<String>) -> (r: bool)
    ensures
        r == join_fits(doc.model().pages, ids_view(chain@)),
{
    let ghost pages = doc.model().pages;
    let ghost c = ids_view(chain@);
    let mut text = String::new();
    let n = chain.len();
    assert(c.take(0) =~= Seq::<Seq<char>>::empty());
    for k in 0..n
        invariant
            n == chain@.len(),
            c == ids_view(chain@),
            pages == doc.model().pages,
            text@ == joined_text(pages, c.take(k as int)),
            forall|j: int|
                0 <= j < k ==> move_fits(
                    frame_attrs(pages, #[trigger] c[j]),
                    byte_len(joined_text(pages, c.take(j))) as u32,
                ),
    {
        let (t, a, _) = frame_snapshot(doc, chain[k].as_str());
        let off = str_byte_len(text.as_str());
        proof {
            assert(c[k as int] == chain@[k as int]@);
        }
        if !attrs_move_fit(&a, off as u32) {
            return false;
        }
        text.append(t.as_str());
        proof {
            let ck = c.take(k + 1);
            assert(ck.drop_last() =~= c.take(k as int));
            assert(ck.last() == c[k as int]);
        }
    }
    true
}

fn gather_is_safe(doc: &Document, chain: &Vec<String>, editing_id: Option<&str>) -> (r: bool)
    requires
        chain@.len() >= 1,
    ensures
        r == gather_safe(doc.model().pages, ids_view(chain@), opt_str(editing_id)),
{
    let ghost pages = doc.model().pages;
    let ghost c = ids_view(chain@);
    assert(c[0] == chain@[0]@);
    let editing_in_chain = match editing_id {
        Some(e) => contains_id(chain, e),
        None => false,
    };
    if editing_in_chain {
        let e = editing_id.unwrap();
        if same_text(e, chain[0].as_str()) {
            return true;
        }
        let (root_text, _, _) = frame_snapshot(doc, chain[0].as_str());
        let (_, ea, eo) = frame_snapshot(doc, e);
        let root_len = str_byte_len(root_text.as_str());
        let pe = if eo < root_len {
            eo
        } else {
            root_len
        };
        root_text.as_str().is_char_boundary(pe) && pe <= 0xffff_ffff && attrs_move_fit(&ea, pe as u32)
    } else if is_legacy_layout(doc, chain) {
        joined_spans_fit(doc, chain)
    } else {
        true
    }
}

/// Whether `Reflow::begin` can run on these arguments; where it cannot, the
/// gathered text would cut a character or put a span past `u32` positions.
pub fn can_begin_reflow(doc: &Document, start_id: &str, editing_id: Option<&str>) -> (r: bool)
    ensures
        r == begin_ok(doc.model().pages, start_id@, opt_str(editing_id)),
{
    let ghost pages = doc.model().pages;
    let root = find_chain_root(doc, start_id);
    let chain = collect_chain(doc, root.as_str());
    proof {
        lemma_chain_root(pages, start_id@, root@);
        crate::chain::lemma_chain_of(pages, root@, ids_view(chain@));
    }
    if chain.len() < 2 {
        return true;
    }
    if !gather_is_safe(doc, &chain, editing_id) {
        return false;
    }
    let (text, _) = gather(doc, &chain, editing_id);
    str_byte_len(text.as_str()) <= 0xffff_ffff
}

// ── The reflow machine ───────────────────────────────────────────────────────

/// A reflow between two frames: the chain, its whole text and spans, the
/// next frame to fill and the byte offset at which that frame starts.
pub struct Reflow {
    chain: Vec<String>,
    text: String,
    attributes: Vec<TextAttribute>,
    next: usize,
    offset: usize,
    last_overflows: bool,
}

pub struct ReflowModel {
    pub chain: Seq<Seq<char>>,
    pub text: Seq<char>,
    pub attributes: Seq<TextAttribute>,
    pub next: int,
    pub offset: int,
    pub last_overflows: bool,
}

impl View for Reflow {
    type V = ReflowModel;

    closed spec fn view(&self) -> ReflowModel {
        ReflowModel {
            chain: ids_view(self.chain@),
            text: self.text@,
            attributes: self.attributes@,
            next: self.next as int,
            offset: self.offset as int,
            last_overflows: self.last_overflows,
        }
    }
}

impl ReflowModel {
    pub open spec fn wf(self) -> bool {
        &&& self.chain.len() >= 2
        &&& self.chain.no_duplicates()
        &&& 0 <= self.next <= self.chain.len()
        &&& boundary(self.text, self.offset)
        &&& byte_len(self.text) <= u32::MAX
    }

    /// The frame to fill next is the chain's last.
    pub open spec fn is_last(self) -> bool {
        self.next == self.chain.len() - 1
    }

    /// The text still to place, from the current offset on.
    pub open spec fn remaining(self) -> Seq<char> {
        suffix_bytes(self.text, self.offset)
    }

    /// The spans of the text still to place, relative to the current offset.
    pub open spec fn remaining_attrs(self) -> Seq<TextAttribute> {
        slice_seq(self.attributes, self.offset as u32, byte_len(self.text) as u32)
    }

    /// What the next frame's measurement is about: nothing when no text is
    /// left, or when the last frame is left with more than `PROBE_LIMIT`
    /// bytes (it overflows anyway); the rest of the text for the last frame;
    /// for another frame the rest of the text cut down to at most
    /// `PROBE_LIMIT` bytes at a character boundary.
    pub open spec fn probe(self) -> Option<(Seq<char>, Seq<TextAttribute>)> {
        let rem = self.remaining();
        let n = byte_len(rem);
        if n == 0 {
            None
        } else if self.is_last() {
            if n > PROBE_LIMIT {
                None
            } else {
                Some((rem, self.remaining_attrs()))
            }
        } else {
            let pe = if n <= PROBE_LIMIT {
                n as int
            } else {
                floor_boundary(rem, PROBE_LIMIT as int)
            };
            Some(
                (
                    prefix_bytes(rem, pe),
                    slice_seq(self.attributes, self.offset as u32, (self.offset + pe) as u32),
                ),
            )
        }
    }

    /// How many bytes the next frame takes: none when no text is left, all of
    /// it for the last frame, what the measurement found otherwise.
    pub open spec fn capacity(self, measured: int) -> int {
        let n = byte_len(self.remaining());
        if n == 0 {
            0
        } else if self.is_last() {
            n as int
        } else {
            measured
        }
    }

    /// The offset after the next frame, kept within the text.
    pub open spec fn offset_after(self, measured: int) -> int {
        let o = self.offset + self.capacity(measured);
        if o > byte_len(self.text) {
            byte_len(self.text) as int
        } else {
            o
        }
    }

    /// The measurement leaves the next frame ending on a character boundary.
    pub open spec fn step_ok(self, measured: int) -> bool {
        boundary(self.text, self.offset_after(measured))
    }

    /// The reflow after the next frame is filled.
    pub open spec fn stepped(self, measured: int) -> ReflowModel {
        let n = byte_len(self.remaining());
        ReflowModel {
            next: self.next + 1,
            offset: self.offset_after(measured),
            last_overflows: if self.is_last() && n > 0 {
                n > PROBE_LIMIT || measured < n
            } else {
                self.last_overflows
            },
            ..self
        }
    }
}

/// A frame with its overflow mark set to `hint`.
pub open spec fn with_hint(b: BoxModel, hint: bool) -> BoxModel {
    BoxModel { frame: FrameProps { overflow_hint: hint, ..b.frame }, ..b }
}

fn set_overflow_hint(doc: &mut Document, id: &str, hint: bool)
    ensures
        final(doc).model() == with_pages(
            old(doc).model(),
            update_box(old(doc).model().pages, id@, |b: BoxModel| with_hint(b, hint)),
        ),
{
    let ghost old_pages = doc.pages@;
    match locate(&doc.pages, id) {
        Some((p, i)) => {
            proof {
                lemma_find_loc(doc.model().pages, id@);
            }
            let ghost old_page = doc.pages@[p as int];
            let item = &mut doc.pages[p].items[i];
            match &mut item.content {
                ItemContent::Text(tb) => {
                    tb.overflow_hint = hint;
                },
                _ => {},
            }
            proof {
                let new_page = doc.pages@[p as int];
                assert(new_page.items@ == old_page.items@.update(i as int, new_page.items@[i as int]));
                assert(item_models(new_page.items@) =~= item_models(old_page.items@).update(
                    i as int,
                    new_page.items@[i as int].model(),
                ));
                assert(page_models(doc.pages@) =~= page_models(old_pages).update(
                    p as int,
                    new_page.model(),
                ));
            }
        },
        None => {},
    }
}

impl Reflow {
    /// Starts reflowing the chain of the frame `start_id`: finds the chain,
    /// gathers its whole text into its first frame at offset 0, and returns
    /// the machine ready to fill the first frame. A chain of fewer than two
    /// frames has nothing to reflow: `None`, and the document is unchanged.
    pub fn begin(doc: &mut Document, start_id: &str, editing_id: Option<&str>) -> (r: Option<Reflow>)
        requires
            begin_ok(old(doc).model().pages, start_id@, opt_str(editing_id)),
        ensures
            ({
                let pages = old(doc).model().pages;
                let c = reflow_chain_of(pages, start_id@);
                let g = gathered(pages, c, opt_str(editing_id));
                if c.len() < 2 {
                    r is None && final(doc).model() == old(doc).model()
                } else {
                    &&& r is Some
                    &&& r.unwrap()@ == ReflowModel {
                        chain: c,
                        text: g.0,
                        attributes: g.1,
                        next: 0,
                        offset: 0,
                        last_overflows: false,
                    }
                    &&& r.unwrap()@.wf()
                    &&& final(doc).model() == with_pages(
                        old(doc).model(),
                        update_box(pages, c[0], |b: BoxModel| with_content(b, g.0, g.1, 0)),
                    )
                }
            }),
    {
        let ghost pages = doc.model().pages;
        let root = find_chain_root(doc, start_id);
        let chain = collect_chain(doc, root.as_str());
        proof {
            lemma_chain_root(pages, start_id@, root@);
            crate::chain::lemma_chain_of(pages, root@, ids_view(chain@));
        }
        if chain.len() < 2 {
            return None;
        }
        let (text, attributes) = gather(doc, &chain, editing_id);
        proof {
            lemma_floor_boundary(text@, 0);
            assert(ids_view(chain@)[0] == root@);
            assert(is_chain_from(pages, root@, ids_view(chain@)));
        }
        set_chain_frame_content(doc, root.as_str(), text.clone(), clone_attrs(&attributes), 0);
        Some(Reflow { chain, text, attributes, next: 0, offset: 0, last_overflows: false })
    }

    /// The id of the frame to fill next, if any is left.
    pub fn frame_id(&self) -> (r: Option<String>)
        ensures
            match r {
                Some(id) => 0 <= self@.next < self@.chain.len() && id@ == self@.chain[self@.next],
                None => !(0 <= self@.next < self@.chain.len()),
            },
    {
        if self.next < self.chain.len() {
            Some(self.chain[self.next].clone())
        } else {
            None
        }
    }

    /// All frames have been filled.
    pub fn is_done(&self) -> (r: bool)
        ensures
            r == (self@.next >= self@.chain.len()),
    {
        self.next >= self.chain.len()
    }

    /// The text and spans to measure for the next frame; `None` when the
    /// frame needs no measurement.
    pub fn probe(&self) -> (r: Option<(String, Vec<TextAttribute>)>)
        requires
            self@.wf(),
            self@.next < self@.chain.len(),
        ensures
            match r {
                Some(p) => self@.probe() == Some((p.0@, p.1@)),
                None => self@.probe() is None,
            },
    {
        let ghost m = self@;
        let len = str_byte_len(self.text.as_str());
        proof {
            lemma_cut_at(m.text, m.offset);
        }
        let rest = len - self.offset;
        if rest == 0 {
            return None;
        }
        let rem = substring(self.text.as_str(), self.offset, len);
        proof {
            lemma_floor_boundary(rem@, 0);
            lemma_cut_at(rem@, 0);
            assert(self.chain@.len() == m.chain.len());
        }
        if self.next == self.chain.len() - 1 {
            if rest > PROBE_LIMIT {
                None
            } else {
                Some((rem, slice_attrs_for_range(&self.attributes, self.offset, len)))
            }
        } else {
            let pe = if rest <= PROBE_LIMIT {
                rest
            } else {
                floor_char_boundary(rem.as_str(), PROBE_LIMIT)
            };
            proof {
                lemma_floor_boundary(rem@, PROBE_LIMIT as int);
                lemma_cut_at(rem@, pe as int);
            }
            let head = substring(rem.as_str(), 0, pe);
            Some((head, slice_attrs_for_range(&self.attributes, self.offset, self.offset + pe)))
        }
    }

    /// Fills the next frame: it gets the rest of the text from the current
    /// offset on, with its spans, and that offset; the offset then moves past
    /// the frame's capacity. For the last frame, `measured` also decides
    /// whether the text overflows it.
    pub fn step(&mut self, doc: &mut Document, measured: usize)
        requires
            old(self)@.wf(),
            old(self)@.next < old(self)@.chain.len(),
            old(self)@.step_ok(measured as int),
        ensures
            final(self)@ == old(self)@.stepped(measured as int),
            final(self)@.wf(),
            final(doc).model() == with_pages(
                old(doc).model(),
                update_box(
                    old(doc).model().pages,
                    old(self)@.chain[old(self)@.next],
                    |b: BoxModel|
                        with_content(
                            b,
                            old(self)@.remaining(),
                            old(self)@.remaining_attrs(),
                            old(self)@.offset as usize,
                        ),
                ),
            ),
    {
        let ghost m = self@;
        let len = str_byte_len(self.text.as_str());
        proof {
            lemma_cut_at(m.text, m.offset);
        }
        let rest = len - self.offset;
        assert(self.chain@.len() == m.chain.len());
        let capacity: usize = if rest == 0 {
            0
        } else if self.next == self.chain.len() - 1 {
            self.last_overflows = rest > PROBE_LIMIT || measured < rest;
            rest
        } else {
            measured
        };
        let frame_text = substring(self.text.as_str(), self.offset, len);
        let frame_attrs = slice_attrs_for_range(&self.attributes, self.offset, len);
        set_chain_frame_content(doc, self.chain[self.next].as_str(), frame_text, frame_attrs, self.offset);
        self.offset = if capacity > len - self.offset {
            len
        } else {
            self.offset + capacity
        };
        let n = self.chain.len();
        assert(self.next < n);
        self.next = self.next + 1;
    }

    /// Ends the reflow: the chain's last frame records whether the text
    /// overflows it.
    pub fn finish(self, doc: &mut Document)
        requires
            self@.wf(),
        ensures
            final(doc).model() == with_pages(
                old(doc).model(),
                update_box(
                    old(doc).model().pages,
                    self@.chain.last(),
                    |b: BoxModel| with_hint(b, self@.last_overflows),
                ),
            ),
    {
        let n = self.chain.len();
        set_overflow_hint(doc, self.chain[n - 1].as_str(), self.last_overflows);
    }
}


// ── What a reflow keeps ──────────────────────────────────────────────────────

/// A frame holds the reflowed text from its own offset on, with the spans of
/// that part.
pub open spec fn holds_suffix(b: BoxModel, m: ReflowModel) -> bool {
    let o = b.frame.text_offset;
    &&& boundary(m.text, o as int)
    &&& o <= m.offset
    &&& b.state.text == suffix_bytes(m.text, o as int)
    &&& b.state.attributes == slice_seq(m.attributes, o as u32, byte_len(m.text) as u32)
}

/// Every frame filled so far holds the text from its offset on, and the
/// offsets never go back along the chain.
pub open spec fn flowed(pages: Seq<PageModel>, m: ReflowModel) -> bool {
    &&& forall|k: int|
        0 <= k < m.next ==> match #[trigger] box_by_id(pages, m.chain[k]) {
            Some(b) => holds_suffix(b, m),
            None => true,
        }
    &&& forall|j: int, k: int|
        0 <= j < k < m.next && box_by_id(pages, m.chain[j]) is Some && box_by_id(
            pages,
            m.chain[k],
        ) is Some ==> (#[trigger] box_by_id(pages, m.chain[j])).unwrap().frame.text_offset
            <= (#[trigger] box_by_id(pages, m.chain[k])).unwrap().frame.text_offset
}

/// Law: filling the next frame keeps every filled frame holding the chain's
/// text from its offset on, with offsets in chain order.
pub proof fn law_reflow_step_keeps_flow(pages: Seq<PageModel>, m: ReflowModel, measured: int)
    requires
        m.wf(),
        flowed(pages, m),
        m.next < m.chain.len(),
        measured >= 0,
        m.step_ok(measured),
    ensures
        flowed(
            update_box(
                pages,
                m.chain[m.next],
                |b: BoxModel|
                    with_content(b, m.remaining(), m.remaining_attrs(), m.offset as usize),
            ),
            m.stepped(measured),
        ),
{
    let g = |b: BoxModel| with_content(b, m.remaining(), m.remaining_attrs(), m.offset as usize);
    let np = update_box(pages, m.chain[m.next], g);
    let m2 = m.stepped(measured);
    lemma_cut_at(m.text, m.offset);
    assert(m2.offset >= m.offset);
    assert forall|k: int| 0 <= k < m2.next implies match #[trigger] box_by_id(np, m2.chain[k]) {
        Some(b) => holds_suffix(b, m2),
        None => true,
    } by {
        lemma_box_after_update(pages, m.chain[m.next], g, m.chain[k]);
        if k < m.next {
            assert(m.chain[k] != m.chain[m.next]);
            assert(box_by_id(pages, m.chain[k]) == box_by_id(np, m2.chain[k]));
        }
    }
    assert forall|j: int, k: int|
        0 <= j < k < m2.next && box_by_id(np, m2.chain[j]) is Some && box_by_id(
            np,
            m2.chain[k],
        ) is Some implies (#[trigger] box_by_id(np, m2.chain[j])).unwrap().frame.text_offset
        <= (#[trigger] box_by_id(np, m2.chain[k])).unwrap().frame.text_offset by {
        lemma_box_after_update(pages, m.chain[m.next], g, m.chain[j]);
        lemma_box_after_update(pages, m.chain[m.next], g, m.chain[k]);
        assert(m.chain[j] != m.chain[m.next]);
        assert(box_by_id(pages, m.chain[j]) == box_by_id(np, m2.chain[j]));
        if k < m.next {
            assert(m.chain[k] != m.chain[m.next]);
        } else {
            assert(match box_by_id(pages, m.chain[j]) {
                Some(b) => holds_suffix(b, m),
                None => true,
            });
        }
    }
}

/// Law: marking the last frame's overflow changes no frame's text, spans or
/// offset.
pub proof fn law_reflow_finish_keeps_flow(pages: Seq<PageModel>, m: ReflowModel)
    requires
        m.wf(),
        flowed(pages, m),
    ensures
        flowed(update_box(pages, m.chain.last(), |b: BoxModel| with_hint(b, m.last_overflows)), m),
{
    let g = |b: BoxModel| with_hint(b, m.last_overflows);
    let np = update_box(pages, m.chain.last(), g);
    assert forall|k: int| 0 <= k < m.next implies match #[trigger] box_by_id(np, m.chain[k]) {
        Some(b) => holds_suffix(b, m),
        None => true,
    } by {
        lemma_box_after_update(pages, m.chain.last(), g, m.chain[k]);
    }
    assert forall|j: int, k: int|
        0 <= j < k < m.next && box_by_id(np, m.chain[j]) is Some && box_by_id(
            np,
            m.chain[k],
        ) is Some implies (#[trigger] box_by_id(np, m.chain[j])).unwrap().frame.text_offset
        <= (#[trigger] box_by_id(np, m.chain[k])).unwrap().frame.text_offset by {
        lemma_box_after_update(pages, m.chain.last(), g, m.chain[j]);
        lemma_box_after_update(pages, m.chain.last(), g, m.chain[k]);
    }
}


// ── A whole reflow ───────────────────────────────────────────────────────────

/// How the next frame is filled: the rest of the text from the current
/// offset on, with its spans, and that offset.
pub open spec fn fill_next(m: ReflowModel) -> spec_fn(BoxModel) -> BoxModel {
    |b: BoxModel| with_content(b, m.remaining(), m.remaining_attrs(), m.offset as usize)
}

/// The pages after the next frame is filled.
pub open spec fn step_pages(pages: Seq<PageModel>, m: ReflowModel) -> Seq<PageModel> {
    update_box(pages, m.chain[m.next], fill_next(m))
}

/// The pages and the reflow after one frame is filled for each measurement
/// in `ms`, in turn.
pub open spec fn run_pages(pages: Seq<PageModel>, m: ReflowModel, ms: Seq<int>) -> (
    Seq<PageModel>,
    ReflowModel,
)
    decreases ms.len(),
{
    if ms.len() == 0 {
        (pages, m)
    } else {
        run_pages(step_pages(pages, m), m.stepped(ms[0]), ms.drop_first())
    }
}

/// Each measurement in `ms` is one that `step` accepts at its turn.
pub open spec fn run_ok(m: ReflowModel, ms: Seq<int>) -> bool
    decreases ms.len(),
{
    ms.len() == 0 || (m.next < m.chain.len() && ms[0] >= 0 && m.step_ok(ms[0]) && run_ok(
        m.stepped(ms[0]),
        ms.drop_first(),
    ))
}

proof fn lemma_step_keeps_links(pages: Seq<PageModel>, m: ReflowModel)
    requires
        0 <= m.next < m.chain.len(),
    ensures
        forall|x: Seq<char>|
            #[trigger] next_of(step_pages(pages, m), x) == next_of(pages, x) && prev_of(
                step_pages(pages, m),
                x,
            ) == prev_of(pages, x),
{
    assert forall|x: Seq<char>|
        #[trigger] next_of(step_pages(pages, m), x) == next_of(pages, x) && prev_of(
            step_pages(pages, m),
            x,
        ) == prev_of(pages, x) by {
        lemma_box_after_update(pages, m.chain[m.next], fill_next(m), x);
    }
}

proof fn lemma_run_len(m: ReflowModel, ms: Seq<int>)
    requires
        m.wf(),
        run_ok(m, ms),
    ensures
        m.next + ms.len() <= m.chain.len(),
    decreases ms.len(),
{
    if ms.len() > 0 {
        lemma_cut_at(m.text, m.offset);
        lemma_run_len(m.stepped(ms[0]), ms.drop_first());
    }
}

/// A run changes no frame it does not fill.
proof fn lemma_run_keeps_others(pages: Seq<PageModel>, m: ReflowModel, ms: Seq<int>, x: Seq<char>)
    requires
        m.wf(),
        run_ok(m, ms),
        forall|k: int| m.next <= k < m.next + ms.len() ==> m.chain[k] != x,
    ensures
        box_by_id(run_pages(pages, m, ms).0, x) == box_by_id(pages, x),
    decreases ms.len(),
{
    if ms.len() > 0 {
        lemma_box_after_update(pages, m.chain[m.next], fill_next(m), x);
        let m2 = m.stepped(ms[0]);
        lemma_cut_at(m.text, m.offset);
        assert forall|k: int| m2.next <= k < m2.next + ms.drop_first().len() implies m2.chain[k] != x by {
            assert(m.next <= k < m.next + ms.len());
        }
        lemma_run_keeps_others(step_pages(pages, m), m2, ms.drop_first(), x);
    }
}

/// Law: a whole run of steps keeps the chain flowed: every frame filled
/// holds the chain's text from its offset on, with the spans of that part,
/// offsets in chain order; the chain, its text and its spans stay as they
/// were, one frame is filled per measurement, and no frame's links change.
pub proof fn law_reflow_run_keeps_flow(pages: Seq<PageModel>, m: ReflowModel, ms: Seq<int>)
    requires
        m.wf(),
        flowed(pages, m),
        run_ok(m, ms),
    ensures
        ({
            let (p2, m2) = run_pages(pages, m, ms);
            &&& m2.wf()
            &&& flowed(p2, m2)
            &&& m2.chain == m.chain
            &&& m2.text == m.text
            &&& m2.attributes == m.attributes
            &&& m2.next == m.next + ms.len()
            &&& forall|x: Seq<char>|
                #[trigger] next_of(p2, x) == next_of(pages, x) && prev_of(p2, x) == prev_of(
                    pages,
                    x,
                )
        }),
    decreases ms.len(),
{
    if ms.len() > 0 {
        law_reflow_step_keeps_flow(pages, m, ms[0]);
        lemma_step_keeps_links(pages, m);
        lemma_cut_at(m.text, m.offset);
        let p1 = step_pages(pages, m);
        let m1 = m.stepped(ms[0]);
        law_reflow_run_keeps_flow(p1, m1, ms.drop_first());
        let p2 = run_pages(p1, m1, ms.drop_first()).0;
        assert forall|x: Seq<char>|
            #[trigger] next_of(p2, x) == next_of(pages, x) && prev_of(p2, x) == prev_of(pages, x) by {
            assert(next_of(p2, x) == next_of(p1, x));
            assert(next_of(p1, x) == next_of(pages, x));
        }
    }
}

/// Law: a run that starts at the first frame, from offset 0, and fills every
/// frame of the chain leaves each frame holding the chain's text from its
/// own offset on, with the spans of that part; the first frame's offset is 0,
/// the offsets never go back along the chain, and no frame's links change.
pub proof fn law_reflow_fills_chain(pages: Seq<PageModel>, m: ReflowModel, ms: Seq<int>)
    requires
        m.wf(),
        m.next == 0,
        m.offset == 0,
        run_ok(m, ms),
        ms.len() == m.chain.len(),
    ensures
        ({
            let (p2, m2) = run_pages(pages, m, ms);
            &&& m2.next == m.chain.len()
            &&& forall|k: int|
                0 <= k < m.chain.len() ==> match #[trigger] box_by_id(p2, m.chain[k]) {
                    Some(b) => {
                        &&& boundary(m.text, b.frame.text_offset as int)
                        &&& b.state.text == suffix_bytes(m.text, b.frame.text_offset as int)
                        &&& b.state.attributes == slice_seq(
                            m.attributes,
                            b.frame.text_offset as u32,
                            byte_len(m.text) as u32,
                        )
                    },
                    None => true,
                }
            &&& forall|j: int, k: int|
                0 <= j < k < m.chain.len() && box_by_id(p2, m.chain[j]) is Some && box_by_id(
                    p2,
                    m.chain[k],
                ) is Some ==> (#[trigger] box_by_id(p2, m.chain[j])).unwrap().frame.text_offset
                    <= (#[trigger] box_by_id(p2, m.chain[k])).unwrap().frame.text_offset
            &&& box_by_id(p2, m.chain[0]) matches Some(b) ==> b.frame.text_offset == 0
            &&& forall|x: Seq<char>|
                #[trigger] next_of(p2, x) == next_of(pages, x) && prev_of(p2, x) == prev_of(
                    pages,
                    x,
                )
        }),
{
    law_reflow_run_keeps_flow(pages, m, ms);
    let (p2, m2) = run_pages(pages, m, ms);
    assert forall|k: int| 0 <= k < m.chain.len() implies match #[trigger] box_by_id(p2, m.chain[k]) {
        Some(b) => {
            &&& boundary(m.text, b.frame.text_offset as int)
            &&& b.state.text == suffix_bytes(m.text, b.frame.text_offset as int)
            &&& b.state.attributes == slice_seq(
                m.attributes,
                b.frame.text_offset as u32,
                byte_len(m.text) as u32,
            )
        },
        None => true,
    } by {
        assert(match box_by_id(p2, m2.chain[k]) {
            Some(b) => holds_suffix(b, m2),
            None => true,
        });
    }
    // The first frame is filled by the first step, at offset 0, and no later step touches it.
    let p1 = step_pages(pages, m);
    let m1 = m.stepped(ms[0]);
    lemma_cut_at(m.text, m.offset);
    lemma_box_after_update(pages, m.chain[0], fill_next(m), m.chain[0]);
    assert forall|k: int| m1.next <= k < m1.next + ms.drop_first().len() implies m1.chain[k] != m.chain[0] by {
        assert(m.chain.no_duplicates());
        assert(k != 0);
    }
    lemma_run_keeps_others(p1, m1, ms.drop_first(), m.chain[0]);
}

/// A frame that filling would leave as it is.
proof fn lemma_update_box_fixed(q: Seq<PageModel>, x: Seq<char>, g: spec_fn(BoxModel) -> BoxModel)
    requires
        box_by_id(q, x) matches Some(b) ==> g(b) == b,
    ensures
        update_box(q, x, g) == q,
{
    lemma_find_loc(q, x);
    match crate::chain::find_loc(q, x) {
        Some((p, i)) => {
            let it = q[p].items[i];
            match it.content {
                ContentModel::Text(b) => {
                    assert(box_by_id(q, x) == Some(b));
                    assert(ItemModel { content: ContentModel::Text(g(b)), ..it } == it);
                },
                _ => {},
            }
            assert(q[p].items.update(i, it) =~= q[p].items);
            assert(q.update(p, PageModel { items: q[p].items, ..q[p] }) =~= q);
        },
        None => {},
    }
}

/// Law: with the same measurements, running the same steps again over
/// frames a run has already filled changes nothing; with a layout that
/// measures the same text in the same frame the same way, reflowing twice
/// is reflowing once.
pub proof fn law_reflow_run_is_stable(pages: Seq<PageModel>, m: ReflowModel, ms: Seq<int>)
    requires
        m.wf(),
        run_ok(m, ms),
    ensures
        run_pages(run_pages(pages, m, ms).0, m, ms).0 == run_pages(pages, m, ms).0,
    decreases ms.len(),
{
    if ms.len() > 0 {
        let p1 = step_pages(pages, m);
        let m1 = m.stepped(ms[0]);
        let rest = ms.drop_first();
        lemma_cut_at(m.text, m.offset);
        let r = run_pages(p1, m1, rest).0;
        assert(run_pages(pages, m, ms).0 == r);
        let id = m.chain[m.next];
        lemma_run_len(m, ms);
        assert forall|k: int| m1.next <= k < m1.next + rest.len() implies m1.chain[k] != id by {
            assert(m.chain.no_duplicates());
            assert(k != m.next);
        }
        lemma_run_keeps_others(p1, m1, rest, id);
        lemma_box_after_update(pages, id, fill_next(m), id);
        lemma_update_box_fixed(r, id, fill_next(m));
        assert(step_pages(r, m) == r);
        assert(run_pages(r, m, ms).0 == run_pages(step_pages(r, m), m1, rest).0);
        law_reflow_run_is_stable(p1, m1, rest);
    }
}

proof fn lemma_with_content_twice(b: BoxModel, t: Seq<char>, a: Seq<TextAttribute>, o: usize)
    ensures
        with_content(with_content(b, t, a, o), t, a, o) == with_content(b, t, a, o),
{
}

/// A run keeps which items are text frames.
proof fn lemma_run_boxes_kept(pages: Seq<PageModel>, m: ReflowModel, ms: Seq<int>, x: Seq<char>)
    requires
        m.wf(),
        run_ok(m, ms),
    ensures
        (box_by_id(run_pages(pages, m, ms).0, x) is Some) == (box_by_id(pages, x) is Some),
    decreases ms.len(),
{
    if ms.len() > 0 {
        lemma_box_after_update(pages, m.chain[m.next], fill_next(m), x);
        lemma_cut_at(m.text, m.offset);
        lemma_run_boxes_kept(step_pages(pages, m), m.stepped(ms[0]), ms.drop_first(), x);
    }
}

/// The reflow a run ends with does not depend on the pages.
proof fn lemma_run_model(p: Seq<PageModel>, q: Seq<PageModel>, m: ReflowModel, ms: Seq<int>)
    ensures
        run_pages(p, m, ms).1 == run_pages(q, m, ms).1,
    decreases ms.len(),
{
    if ms.len() > 0 {
        lemma_run_model(step_pages(p, m), step_pages(q, m), m.stepped(ms[0]), ms.drop_first());
    }
}

/// The first frame of a run from the start is filled by its first step and
/// left alone after.
proof fn lemma_root_filled(pages: Seq<PageModel>, m: ReflowModel, ms: Seq<int>)
    requires
        m.wf(),
        m.next == 0,
        run_ok(m, ms),
        ms.len() > 0,
        box_by_id(pages, m.chain[0]) is Some,
    ensures
        box_by_id(run_pages(pages, m, ms).0, m.chain[0]) == Some(
            fill_next(m)(box_by_id(pages, m.chain[0]).unwrap()),
        ),
{
    let p1 = step_pages(pages, m);
    let m1 = m.stepped(ms[0]);
    lemma_cut_at(m.text, m.offset);
    lemma_box_after_update(pages, m.chain[0], fill_next(m), m.chain[0]);
    lemma_run_len(m, ms);
    assert forall|k: int| m1.next <= k < m1.next + ms.drop_first().len() implies m1.chain[k]
        != m.chain[0] by {
        assert(m.chain.no_duplicates());
        assert(k != 0);
    }
    lemma_run_keeps_others(p1, m1, ms.drop_first(), m.chain[0]);
}

/// Two runs whose reflows differ only in spans that cut to the same spans
/// fill the frames the same way.
proof fn lemma_run_same_fill(pages: Seq<PageModel>, m: ReflowModel, m2: ReflowModel, ms: Seq<int>)
    requires
        m.wf(),
        run_ok(m, ms),
        m2 == (ReflowModel { attributes: slice_seq(m.attributes, 0, byte_len(m.text) as u32), ..m }),
    ensures
        run_ok(m2, ms),
        run_pages(pages, m2, ms).0 == run_pages(pages, m, ms).0,
        run_pages(pages, m2, ms).1 == (ReflowModel {
            attributes: m2.attributes,
            ..run_pages(pages, m, ms).1
        }),
    decreases ms.len(),
{
    if ms.len() > 0 {
        lemma_cut_at(m.text, m.offset);
        lemma_slice_twice(m.attributes, m.offset as u32, byte_len(m.text) as u32);
        assert(m2.remaining_attrs() == m.remaining_attrs());
        assert(fill_next(m2) =~= fill_next(m));
        assert(step_pages(pages, m2) == step_pages(pages, m));
        let n1 = m.stepped(ms[0]);
        let n2 = m2.stepped(ms[0]);
        assert(n2 == (ReflowModel {
            attributes: slice_seq(n1.attributes, 0, byte_len(n1.text) as u32),
            ..n1
        }));
        lemma_run_same_fill(step_pages(pages, m), n1, n2, ms.drop_first());
    }
}

/// Law: reflowing a chain a second time, with the same measurements,
/// changes nothing. After a run that fills every text frame of the chain
/// from offset 0, gathering the chain again gives back its text (with its
/// spans cut to it), starting again writes nothing new into the first frame,
/// and the same run leaves every frame as it is and ends with the same
/// overflow mark.
pub proof fn law_reflow_twice_changes_nothing(pages: Seq<PageModel>, m: ReflowModel, ms: Seq<int>)
    requires
        m.wf(),
        m.next == 0,
        m.offset == 0,
        run_ok(m, ms),
        ms.len() == m.chain.len(),
        forall|k: int| 0 <= k < m.chain.len() ==> (#[trigger] box_by_id(pages, m.chain[k])) is Some,
    ensures
        ({
            let (p2, r) = run_pages(pages, m, ms);
            let a2 = slice_seq(m.attributes, 0, byte_len(m.text) as u32);
            let m2 = ReflowModel { attributes: a2, ..m };
            &&& gathered(p2, m.chain, None) == (m.text, a2)
            &&& update_box(p2, m.chain[0], |b: BoxModel| with_content(b, m.text, a2, 0)) == p2
            &&& run_ok(m2, ms)
            &&& run_pages(p2, m2, ms).0 == p2
            &&& run_pages(p2, m2, ms).1.last_overflows == r.last_overflows
        }),
{
    law_reflow_fills_chain(pages, m, ms);
    let (p2, r) = run_pages(pages, m, ms);
    let t = m.text;
    let l = byte_len(t);
    let a2 = slice_seq(m.attributes, 0, l as u32);
    let m2 = ReflowModel { attributes: a2, ..m };
    let c = m.chain;
    lemma_cut_at(t, 0);
    assert(suffix_bytes(t, 0) =~= t);
    // Every frame is still a text frame.
    assert forall|k: int| 0 <= k < c.len() implies (#[trigger] box_by_id(p2, c[k])) is Some by {
        law_reflow_run_keeps_flow(pages, m, ms);
        lemma_run_boxes_kept(pages, m, ms, c[k]);
    }
    // The first frame holds the whole text at offset 0.
    let root = box_by_id(p2, c[0]).unwrap();
    assert(box_by_id(p2, c[0]) is Some);
    assert(root.frame.text_offset == 0);
    assert(root.state.text == t);
    assert(root.state.attributes == a2);
    // No later frame runs past the first frame's text.
    assert(!legacy_layout(p2, c)) by {
        assert forall|k: int|
            1 <= k < c.len() && #[trigger] frame_text(p2, c[k]).len() > 0 implies !(byte_len(
            frame_text(p2, c[0]),
        ) < frame_offset(p2, c[k]) + byte_len(frame_text(p2, c[k]))) by {
            assert(box_by_id(p2, c[k]) is Some);
            let b = box_by_id(p2, c[k]).unwrap();
            lemma_cut_at(t, b.frame.text_offset as int);
        }
    }
    assert(gathered(p2, c, None) == (t, a2));
    // Starting again rewrites the first frame with what it holds.
    let g = |b: BoxModel| with_content(b, t, a2, 0);
    let b0 = box_by_id(pages, c[0]).unwrap();
    lemma_root_filled(pages, m, ms);
    assert(fill_next(m)(b0) == with_content(b0, t, a2, 0));
    lemma_with_content_twice(b0, t, a2, 0);
    lemma_update_box_fixed(p2, c[0], g);
    // The same run with the same measurements fills every frame as before.
    lemma_run_same_fill(p2, m, m2, ms);
    law_reflow_run_is_stable(pages, m, ms);
    lemma_run_model(p2, pages, m, ms);
}


// ── What the layout engine is told about a frame ─────────────────────────────

/// Bit pattern of 100.0, the size assumed for a frame that cannot be found.
pub const MISSING_FRAME_SIZE_BITS: u64 = 0x4059000000000000;

/// What the layout engine needs to measure text in a frame: its size and
/// text settings, each float as the bit pattern of its IEEE-754 double.
pub struct FrameMetrics {
    pub width: u64,
    pub height: u64,
    pub font_description: String,
    pub padding: u64,
    pub line_spacing: u64,
    pub alignment: TextAlign,
}

/// The metrics a reflow measures with: those of the frame with the given id;
/// the item's size with plain text settings for an item that is no text
/// frame; a 100 by 100 frame with plain settings when there is no such item.
pub open spec fn metrics_match(m: FrameMetrics, pages: Seq<PageModel>, id: Seq<char>) -> bool {
    match item_by_id(pages, id) {
        Some(it) => {
            &&& m.width == it.width
            &&& m.height == it.height
            &&& match it.content {
                ContentModel::Text(b) => {
                    &&& m.font_description@ == b.frame.font_description
                    &&& m.padding == b.frame.padding
                    &&& m.line_spacing == b.frame.line_spacing
                    &&& m.alignment == b.state.alignment
                },
                _ => {
                    &&& m.font_description@ == DEFAULT_FONT@
                    &&& m.padding == 0
                    &&& m.line_spacing == UNIT_LINE_SPACING_BITS
                    &&& m.alignment == TextAlign::Left
                },
            }
        },
        None => {
            &&& m.width == MISSING_FRAME_SIZE_BITS
            &&& m.height == MISSING_FRAME_SIZE_BITS
            &&& m.font_description@ == DEFAULT_FONT@
            &&& m.padding == 0
            &&& m.line_spacing == UNIT_LINE_SPACING_BITS
            &&& m.alignment == TextAlign::Left
        },
    }
}

/// The metrics with which a reflow measures the frame `id`.
pub fn frame_metrics(doc: &Document, id: &str) -> (r: FrameMetrics)
    ensures
        metrics_match(r, doc.model().pages, id@),
{
    match locate(&doc.pages, id) {
        Some((p, i)) => {
            proof {
                lemma_find_loc(doc.model().pages, id@);
                assert(doc.model().pages[p as int].items[i as int] == doc.pages@[p as int].items@[i as int].model());
            }
            let item = &doc.pages[p].items[i];
            match &item.content {
                ItemContent::Text(tb) => FrameMetrics {
                    width: item.width,
                    height: item.height,
                    font_description: tb.font_description.clone(),
                    padding: tb.padding,
                    line_spacing: tb.line_spacing,
                    alignment: tb.alignment,
                },
                _ => FrameMetrics {
                    width: item.width,
                    height: item.height,
                    font_description: DEFAULT_FONT.to_owned(),
                    padding: 0,
                    line_spacing: UNIT_LINE_SPACING_BITS,
                    alignment: TextAlign::Left,
                },
            }
        },
        None => FrameMetrics {
            width: MISSING_FRAME_SIZE_BITS,
            height: MISSING_FRAME_SIZE_BITS,
            font_description: DEFAULT_FONT.to_owned(),
            padding: 0,
            line_spacing: UNIT_LINE_SPACING_BITS,
            alignment: TextAlign::Left,
        },
    }
}


// ── How much of its text each frame shows ────────────────────────────────────

/// How many bytes of its text the frame `c[idx]` of the chain `c` shows: up
/// to where the next frame starts, but no more than its text; all of it when
/// it is the last frame or the next one is no text frame.
pub open spec fn visible_len(pages: Seq<PageModel>, c: Seq<Seq<char>>, idx: int) -> nat {
    let n = byte_len(frame_text(pages, c[idx]));
    let off = frame_offset(pages, c[idx]);
    if idx + 1 < c.len() {
        match box_by_id(pages, c[idx + 1]) {
            Some(nb) => {
                let d: nat = if nb.frame.text_offset >= off {
                    (nb.frame.text_offset - off) as nat
                } else {
                    0
                };
                if d < n {
                    d
                } else {
                    n
                }
            },
            None => n,
        }
    } else {
        n
    }
}

/// The visible lengths of the text frames among the first `n` frames of `c`.
pub open spec fn chain_entries(pages: Seq<PageModel>, c: Seq<Seq<char>>, n: int) -> Seq<
    (Seq<char>, nat),
>
    decreases n,
{
    if n <= 0 {
        Seq::empty()
    } else {
        chain_entries(pages, c, n - 1) + if box_by_id(pages, c[n - 1]) is Some {
            seq![(c[n - 1], visible_len(pages, c, n - 1))]
        } else {
            Seq::empty()
        }
    }
}

/// The visible lengths of the frames of the chains that start at `roots`,
/// chain by chain.
pub open spec fn roots_entries(pages: Seq<PageModel>, roots: Seq<Seq<char>>) -> Seq<(Seq<char>, nat)>
    decreases roots.len(),
{
    if roots.len() == 0 {
        Seq::empty()
    } else {
        let c = chain_of(pages, roots.last());
        roots_entries(pages, roots.drop_last()) + chain_entries(pages, c, c.len() as int)
    }
}

/// The value of the last entry for `k`: later entries override earlier ones.
pub open spec fn last_entry(e: Seq<(Seq<char>, nat)>, k: Seq<char>) -> Option<nat>
    decreases e.len(),
{
    if e.len() == 0 {
        None
    } else if e.last().0 == k {
        Some(e.last().1)
    } else {
        last_entry(e.drop_last(), k)
    }
}

pub open spec fn entries_view(v: Seq<(String, usize)>) -> Seq<(Seq<char>, nat)> {
    v.map_values(|p: (String, usize)| (p.0@, p.1 as nat))
}

fn visible_len_at(doc: &Document, chain: &Vec<String>, idx: usize) -> (r: usize)
    requires
        idx < chain@.len(),
        box_by_id(doc.model().pages, chain@[idx as int]@) is Some,
    ensures
        r == visible_len(doc.model().pages, ids_view(chain@), idx as int),
{
    let ghost pages = doc.model().pages;
    let ghost cv = ids_view(chain@);
    assert(cv[idx as int] == chain@[idx as int]@);
    let (text, _, off) = frame_snapshot(doc, chain[idx].as_str());
    let len = str_byte_len(text.as_str());
    if idx < chain.len() - 1 {
        assert(cv[idx + 1] == chain@[idx + 1]@);
        match chain_frame_textbox(doc, chain[idx + 1].as_str()) {
            Some(next_tb) => {
                let d = if next_tb.text_offset >= off {
                    next_tb.text_offset - off
                } else {
                    0
                };
                if d < len {
                    d
                } else {
                    len
                }
            },
            None => len,
        }
    } else {
        len
    }
}

/// The number of bytes each frame of every chain shows, as entries in chain
/// order; where a frame turns up twice, the later entry counts.
pub fn collect_chain_visible_lengths(doc: &Document) -> (r: Vec<(String, usize)>)
    ensures
        entries_view(r@) == roots_entries(
            doc.model().pages,
            chain_roots(all_items(doc.model().pages)),
        ),
{
    let ghost pages = doc.model().pages;
    let roots = collect_all_chain_roots(doc);
    let ghost rv = ids_view(roots@);
    let mut out: Vec<(String, usize)> = Vec::new();
    let nr = roots.len();
    assert(rv.take(0) =~= Seq::<Seq<char>>::empty());
    for ri in 0..nr
        invariant
            nr == roots@.len(),
            rv == ids_view(roots@),
            rv == chain_roots(all_items(pages)),
            pages == doc.model().pages,
            entries_view(out@) == roots_entries(pages, rv.take(ri as int)),
    {
        let chain = collect_chain(doc, roots[ri].as_str());
        let ghost cv = ids_view(chain@);
        let ghost before = entries_view(out@);
        proof {
            crate::chain::lemma_chain_of(pages, roots@[ri as int]@, cv);
            assert(rv.take(ri + 1).drop_last() =~= rv.take(ri as int));
            assert(rv.take(ri + 1).last() == roots@[ri as int]@);
        }
        let nc = chain.len();
        for idx in 0..nc
            invariant
                nc == chain@.len(),
                cv == ids_view(chain@),
                pages == doc.model().pages,
                entries_view(out@) == before + chain_entries(pages, cv, idx as int),
        {
            let ghost prev_out = out@;
            match chain_frame_textbox(doc, chain[idx].as_str()) {
                Some(tb) => {
                    proof {
                        assert(cv[idx as int] == chain@[idx as int]@);
                    }
                    let visible = visible_len_at(doc, &chain, idx);
                    out.push((chain[idx].clone(), visible));
                    proof {
                        assert(entries_view(out@) =~= entries_view(prev_out).push(
                            (cv[idx as int], visible_len(pages, cv, idx as int)),
                        ));
                    }
                },
                None => {
                    proof {
                        assert(cv[idx as int] == chain@[idx as int]@);
                    }
                },
            }
            proof {
                assert(chain_entries(pages, cv, idx + 1) =~= chain_entries(pages, cv, idx as int)
                    + if box_by_id(pages, cv[idx as int]) is Some {
                    seq![(cv[idx as int], visible_len(pages, cv, idx as int))]
                } else {
                    Seq::empty()
                });
            }
        }
    }
    assert(rv.take(nr as int) =~= rv);
    out
}

/// The visible length recorded for `id` by the last entry that names it.
pub fn visible_length_of(entries: &Vec<(String, usize)>, id: &str) -> (r: Option<usize>)
    ensures
        match r {
            Some(n) => last_entry(entries_view(entries@), id@) == Some(n as nat),
            None => last_entry(entries_view(entries@), id@) is None,
        },
{
    let mut i = entries.len();
    assert(entries@.take(i as int) =~= entries@);
    while i > 0
        invariant
            i <= entries@.len(),
            last_entry(entries_view(entries@), id@) == last_entry(
                entries_view(entries@.take(i as int)),
                id@,
            ),
        decreases i,
    {
        let ghost e = entries_view(entries@.take(i as int));
        assert(e.last() == (entries@[i - 1].0@, entries@[i - 1].1 as nat));
        if same_text(entries[i - 1].0.as_str(), id) {
            return Some(entries[i - 1].1);
        }
        assert(entries_view(entries@.take(i - 1)) =~= e.drop_last());
        i = i - 1;
    }
    assert(entries_view(entries@.take(0)) =~= Seq::<(Seq<char>, nat)>::empty());
    None
}


/// Where the frame `id` sits in the chain `c`.
pub open spec fn chain_position(c: Seq<Seq<char>>, id: Seq<char>) -> int {
    choose|i: int| 0 <= i < c.len() && c[i] == id
}

/// The part of a text frame's own text that it shows, as a byte range from
/// 0: all of it outside a chain, up to where the next frame starts inside
/// one; `None` for an id that names no text frame, or a frame that the walk
/// from its chain's first frame does not reach.
pub open spec fn visible_range(pages: Seq<PageModel>, id: Seq<char>) -> Option<(usize, usize)> {
    match box_by_id(pages, id) {
        Some(b) => if !in_chain(pages, id) {
            Some((0, byte_len(b.state.text) as usize))
        } else {
            let c = reflow_chain_of(pages, id);
            if c.contains(id) {
                Some((0, visible_len(pages, c, chain_position(c, id)) as usize))
            } else {
                None
            }
        },
        None => None,
    }
}

/// The byte range of a frame's own text that the frame shows.
pub fn frame_visible_local_range(doc: &Document, id: &str) -> (r: Option<(usize, usize)>)
    ensures
        r == visible_range(doc.model().pages, id@),
{
    let ghost pages = doc.model().pages;
    let tb = match chain_frame_textbox(doc, id) {
        Some(tb) => tb,
        None => {
            return None;
        },
    };
    if !is_in_chain(doc, id) {
        return Some((0, str_byte_len(tb.text.as_str())));
    }
    let root = find_chain_root(doc, id);
    let chain = collect_chain(doc, root.as_str());
    let ghost cv = ids_view(chain@);
    proof {
        lemma_chain_root(pages, id@, root@);
        crate::chain::lemma_chain_of(pages, root@, cv);
    }
    let n = chain.len();
    let mut idx: usize = 0;
    while idx < n
        invariant
            n == chain@.len(),
            cv == ids_view(chain@),
            idx <= n,
            forall|j: int| 0 <= j < idx ==> cv[j] != id@,
            pages == doc.model().pages,
            is_chain_from(pages, root@, cv),
            cv == reflow_chain_of(pages, id@),
            box_by_id(pages, id@) is Some,
        decreases n - idx,
    {
        if same_text(chain[idx].as_str(), id) {
            proof {
                assert(cv[idx as int] == id@);
                assert(cv.contains(id@));
                let p = chain_position(cv, id@);
                assert(cv[p] == id@);
                assert(p == idx);
                assert(chain@[idx as int]@ == id@);
            }
            return Some((0, visible_len_at(doc, &chain, idx)));
        }
        proof {
            assert(cv[idx as int] == chain@[idx as int]@);
        }
        idx = idx + 1;
    }
    None
}

} // verus!
