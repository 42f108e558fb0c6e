//! A text frame: its text, formatted spans, cursor, selection and undo history.
use vstd::prelude::*;
use crate::format::{
    attrs_same, same_attrs,
    after_delete, after_insert, applied, clear_format_in, clone_attrs, cleared, apply_format_to,
    shift_attrs_delete, shift_attrs_insert, value_at, delete_fits, insert_fits, AttrValue,
    TextAttribute, KIND_BG_COLOR, KIND_BOLD, KIND_COLOR, KIND_FAMILY, KIND_ITALIC, KIND_SIZE,
    KIND_UNDERLINE,
};
use crate::utf8_text::{
    boundary, byte_len, byte_pos, char_at, char_index, char_is_control, char_is_whitespace,
    char_utf8_len, cut, insert_at, insert_char_at, is_control_char, is_whitespace_char,
    lemma_boundary_at, lemma_boundary_index, lemma_boundary_le_len, lemma_byte_pos_mono,
    lemma_cut_positions, lemma_encode_single, lemma_next_boundary, lemma_prev_boundary,
    lemma_spliced_positions, next_boundary, next_char_boundary, prev_boundary, prev_char_boundary,
    remove_between, spliced, str_byte_len, substring, text_bytes, ceil_boundary, decimal,
    floor_boundary, next_char_boundary_local, replace_all, str_replace, usize_to_decimal,
};
use vstd::utf8::encode_scalar;

verus! {

/// Base font of a new frame.
pub const DEFAULT_FONT: &'static str = "Sans 11";

/// Bit pattern of the default inner padding, 4/3 mm.
pub const DEFAULT_PADDING_BITS: u64 = 0x3ff5555555555555;

/// Bit pattern of the default line spacing, 1.0.
pub const UNIT_LINE_SPACING_BITS: u64 = 0x3ff0000000000000;

/// How many undo checkpoints a frame keeps.
pub const UNDO_LIMIT: usize = 30;

/// Paragraph alignment.
#[derive(Debug, Clone, Copy, PartialEq, Eq, Structural)]
pub enum TextAlign {
    Left,
    Center,
    Right,
}

impl Default for TextAlign {
    fn default() -> (r: Self)
        ensures
            r == TextAlign::Left,
    {
        TextAlign::Left
    }
}

/// One entry in the undo/redo history of a text frame.
#[derive(Debug, Clone)]
pub struct HistoryEntry {
    pub text: String,
    pub attributes: Vec<TextAttribute>,
    pub alignment: TextAlign,
    pub cursor_pos: usize,
    pub selection_anchor: Option<usize>,
    /// Vertical scroll offset, as the bit pattern of its IEEE-754 double.
    pub scroll_y: u64,
}

/// Snapshot of all format properties active at a single byte position.
#[derive(Debug, Clone)]
pub struct AttrSnapshot {
    pub bold: bool,
    pub italic: bool,
    pub underline: bool,
    pub family: Option<String>,
    /// Font size in points, as the bit pattern of its IEEE-754 double.
    pub size_pt: Option<u64>,
    pub color: Option<[u8; 3]>,
    pub bg_color: Option<[u8; 3]>,
}

impl Default for AttrSnapshot {
    fn default() -> (r: Self)
        ensures
            r == empty_snapshot(),
    {
        AttrSnapshot {
            bold: false,
            italic: false,
            underline: false,
            family: None,
            size_pt: None,
            color: None,
            bg_color: None,
        }
    }
}

/// The snapshot where no attribute is in force.
pub open spec fn empty_snapshot() -> AttrSnapshot {
    AttrSnapshot {
        bold: false,
        italic: false,
        underline: false,
        family: None,
        size_pt: None,
        color: None,
        bg_color: None,
    }
}

/// The formatting in force at byte `p`.
pub open spec fn snapshot_at(attrs: Seq<TextAttribute>, p: int) -> AttrSnapshot {
    AttrSnapshot {
        bold: match value_at(attrs, KIND_BOLD, p) {
            Some(AttrValue::Bold(b)) => b,
            _ => false,
        },
        italic: match value_at(attrs, KIND_ITALIC, p) {
            Some(AttrValue::Italic(b)) => b,
            _ => false,
        },
        underline: match value_at(attrs, KIND_UNDERLINE, p) {
            Some(AttrValue::Underline(b)) => b,
            _ => false,
        },
        family: match value_at(attrs, KIND_FAMILY, p) {
            Some(AttrValue::Family(f)) => Some(f),
            _ => None,
        },
        size_pt: match value_at(attrs, KIND_SIZE, p) {
            Some(AttrValue::Size(s)) => Some(s),
            _ => None,
        },
        color: match value_at(attrs, KIND_COLOR, p) {
            Some(AttrValue::Color(c)) => Some(c),
            _ => None,
        },
        bg_color: match value_at(attrs, KIND_BG_COLOR, p) {
            Some(AttrValue::BgColor(c)) => Some(c),
            _ => None,
        },
    }
}

/// Result of a key press that the frame cannot finish on its own.
#[derive(Debug)]
pub enum KeyAction {
    Handled,
    ExitEdit,
    RequestPaste,
    RequestCut,
    MoveVertical { up: bool, extend: bool },
    FormatBold,
    FormatItalic,
    FormatUnderline,
    Undo,
    Redo,
}

/// A key as the editor reads it: the named keys it acts on, and any other
/// key with the character it produces, if any.
#[derive(Debug, Clone, Copy, PartialEq, Eq, Structural)]
pub enum Key {
    Escape,
    Left,
    Right,
    Up,
    Down,
    Home,
    End,
    BackSpace,
    Delete,
    Return,
    KpEnter,
    Other(Option<char>),
}

/// A text frame.
#[derive(Debug, Clone)]
pub struct TextBox {
    pub text: String,
    pub font_description: String,
    /// Inner padding in millimetres, as the bit pattern of its IEEE-754 double.
    pub padding: u64,
    /// Line spacing factor, as the bit pattern of its IEEE-754 double.
    pub line_spacing: u64,
    /// Per-span formatting applied on top of the base font.
    pub attributes: Vec<TextAttribute>,
    /// Paragraph-level alignment.
    pub alignment: TextAlign,
    /// ID of the next frame in the text chain.
    pub next_frame_id: Option<String>,
    /// ID of the previous frame in the text chain.
    pub prev_frame_id: Option<String>,
    /// Byte offset of this frame's text within the chain's global text.
    pub text_offset: usize,
    /// Cached overflow flag of the last frame in a chain.
    pub overflow_hint: bool,
    pub cursor_pos: usize,
    pub selection_anchor: Option<usize>,
    /// Vertical scroll offset, as the bit pattern of its IEEE-754 double.
    pub scroll_y: u64,
    pub undo_stack: Vec<HistoryEntry>,
    pub redo_stack: Vec<HistoryEntry>,
}

// ── The abstract model ───────────────────────────────────────────────────────

/// Everything one history entry restores.
pub struct EditState {
    pub text: Seq<char>,
    pub attributes: Seq<TextAttribute>,
    pub alignment: TextAlign,
    pub cursor_pos: usize,
    pub selection_anchor: Option<usize>,
    pub scroll_y: u64,
}

/// The properties of a frame that editing leaves alone.
pub struct FrameProps {
    pub font_description: Seq<char>,
    pub padding: u64,
    pub line_spacing: u64,
    pub next_frame_id: Option<Seq<char>>,
    pub prev_frame_id: Option<Seq<char>>,
    pub text_offset: usize,
    pub overflow_hint: bool,
}

/// A text frame as a value: its editable state, its fixed properties and its history.
pub struct BoxModel {
    pub state: EditState,
    pub frame: FrameProps,
    pub undo: Seq<EditState>,
    pub redo: Seq<EditState>,
}

pub open spec fn opt_view(o: Option<String>) -> Option<Seq<char>> {
    match o {
        Some(s) => Some(s@),
        None => None,
    }
}

impl HistoryEntry {
    pub open spec fn state(&self) -> EditState {
        EditState {
            text: self.text@,
            attributes: self.attributes@,
            alignment: self.alignment,
            cursor_pos: self.cursor_pos,
            selection_anchor: self.selection_anchor,
            scroll_y: self.scroll_y,
        }
    }
}

pub open spec fn states(entries: Seq<HistoryEntry>) -> Seq<EditState> {
    entries.map_values(|e: HistoryEntry| e.state())
}

impl TextBox {
    pub open spec fn state(&self) -> EditState {
        EditState {
            text: self.text@,
            attributes: self.attributes@,
            alignment: self.alignment,
            cursor_pos: self.cursor_pos,
            selection_anchor: self.selection_anchor,
            scroll_y: self.scroll_y,
        }
    }

    pub open spec fn frame(&self) -> FrameProps {
        FrameProps {
            font_description: self.font_description@,
            padding: self.padding,
            line_spacing: self.line_spacing,
            next_frame_id: opt_view(self.next_frame_id),
            prev_frame_id: opt_view(self.prev_frame_id),
            text_offset: self.text_offset,
            overflow_hint: self.overflow_hint,
        }
    }

    pub open spec fn model(&self) -> BoxModel {
        BoxModel {
            state: self.state(),
            frame: self.frame(),
            undo: states(self.undo_stack@),
            redo: states(self.redo_stack@),
        }
    }
}

/// The properties of a new frame.
pub open spec fn default_frame() -> FrameProps {
    FrameProps {
        font_description: DEFAULT_FONT@,
        padding: DEFAULT_PADDING_BITS,
        line_spacing: UNIT_LINE_SPACING_BITS,
        next_frame_id: None,
        prev_frame_id: None,
        text_offset: 0,
        overflow_hint: false,
    }
}

/// A new frame holding `text`.
pub open spec fn new_model(text: Seq<char>) -> BoxModel {
    BoxModel {
        state: EditState {
            text,
            attributes: Seq::empty(),
            alignment: TextAlign::Left,
            cursor_pos: 0,
            selection_anchor: None,
            scroll_y: 0,
        },
        frame: default_frame(),
        undo: Seq::empty(),
        redo: Seq::empty(),
    }
}

// ── History ──────────────────────────────────────────────────────────────────

/// A checkpoint is taken only when it differs from the last one in text,
/// alignment or spans.
pub open spec fn differs_from_last(undo: Seq<EditState>, s: EditState) -> bool {
    undo.len() == 0 || undo.last().text != s.text || undo.last().alignment != s.alignment
        || !same_attrs(undo.last().attributes, s.attributes)
}

pub open spec fn model_push_history(m: BoxModel) -> BoxModel {
    if !differs_from_last(m.undo, m.state) {
        m
    } else {
        BoxModel {
            undo: (if m.undo.len() >= UNDO_LIMIT {
                m.undo.drop_first()
            } else {
                m.undo
            }).push(m.state),
            redo: Seq::empty(),
            ..m
        }
    }
}

pub open spec fn model_undo(m: BoxModel) -> (BoxModel, bool) {
    if m.undo.len() == 0 {
        (m, false)
    } else {
        (BoxModel { state: m.undo.last(), undo: m.undo.drop_last(), redo: m.redo.push(m.state), ..m }, true)
    }
}

pub open spec fn model_redo(m: BoxModel) -> (BoxModel, bool) {
    if m.redo.len() == 0 {
        (m, false)
    } else {
        (BoxModel { state: m.redo.last(), redo: m.redo.drop_last(), undo: m.undo.push(m.state), ..m }, true)
    }
}

// ── Formatting and selection ─────────────────────────────────────────────────

pub open spec fn with_state(m: BoxModel, s: EditState) -> BoxModel {
    BoxModel { state: s, ..m }
}

/// The selected byte range, when the selection is not empty.
pub open spec fn sel_range(s: EditState) -> Option<(usize, usize)> {
    match s.selection_anchor {
        None => None,
        Some(a) => if a == s.cursor_pos {
            None
        } else if a < s.cursor_pos {
            Some((a, s.cursor_pos))
        } else {
            Some((s.cursor_pos, a))
        },
    }
}

impl TextBox {
    pub fn new(text: String) -> (r: Self)
        ensures
            r.model() == new_model(text@),
    {
        let r = TextBox {
            text,
            font_description: DEFAULT_FONT.to_owned(),
            padding: DEFAULT_PADDING_BITS,
            line_spacing: UNIT_LINE_SPACING_BITS,
            attributes: Vec::new(),
            alignment: TextAlign::Left,
            next_frame_id: None,
            prev_frame_id: None,
            text_offset: 0,
            overflow_hint: false,
            cursor_pos: 0,
            selection_anchor: None,
            scroll_y: 0,
            undo_stack: Vec::new(),
            redo_stack: Vec::new(),
        };
        assert(states(r.undo_stack@) =~= Seq::empty());
        assert(states(r.redo_stack@) =~= Seq::empty());
        assert(r.attributes@ =~= Seq::empty());
        r
    }

    /// Applies `value` to the byte range `[start, end)`, replacing any existing
    /// attribute of the same kind that overlaps that range.
    pub fn apply_format(&mut self, start: usize, end: usize, value: AttrValue)
        ensures
            final(self).model() == with_state(
                old(self).model(),
                EditState {
                    attributes: applied(old(self).attributes@, start, end, value),
                    ..old(self).state()
                },
            ),
    {
        apply_format_to(&mut self.attributes, start, end, value);
    }

    /// Removes all formatting from the byte range `[start, end)`.
    pub fn clear_format(&mut self, start: usize, end: usize)
        ensures
            final(self).model() == with_state(
                old(self).model(),
                EditState { attributes: cleared(old(self).attributes@, start, end), ..old(self).state() },
            ),
    {
        clear_format_in(&mut self.attributes, start, end);
    }

    /// Returns a snapshot of all active formatting properties at byte `pos`;
    /// later-stored attributes of the same kind override earlier ones.
    pub fn get_attr_at(&self, pos: usize) -> (r: AttrSnapshot)
        ensures
            r == snapshot_at(self.attributes@, pos as u32 as int),
    {
        let p = pos as u32;
        let mut snap = AttrSnapshot::default();
        let n = self.attributes.len();
        let ghost attrs = self.attributes@;
        for i in 0..n
            invariant
                n == attrs.len(),
                attrs == self.attributes@,
                snap == snapshot_at(attrs.take(i as int), p as int),
        {
            let attr = &self.attributes[i];
            proof {
                assert(attrs.take(i + 1).drop_last() =~= attrs.take(i as int));
                assert(attrs.take(i + 1).last() == attrs[i as int]);
            }
            if attr.start <= p && attr.end > p {
                match &attr.value {
                    AttrValue::Bold(b) => snap.bold = *b,
                    AttrValue::Italic(b) => snap.italic = *b,
                    AttrValue::Underline(b) => snap.underline = *b,
                    AttrValue::Family(f) => snap.family = Some(f.clone()),
                    AttrValue::Size(s) => snap.size_pt = Some(*s),
                    AttrValue::Color(c) => snap.color = Some(*c),
                    AttrValue::BgColor(c) => snap.bg_color = Some(*c),
                }
            }
        }
        assert(attrs.take(n as int) =~= attrs);
        snap
    }

    pub fn set_alignment(&mut self, align: TextAlign)
        ensures
            final(self).model() == with_state(
                old(self).model(),
                EditState { alignment: align, ..old(self).state() },
            ),
    {
        self.alignment = align;
    }

    pub fn get_alignment(&self) -> (r: TextAlign)
        ensures
            r == self.alignment,
    {
        self.alignment
    }

    /// The selected byte range, when the selection is not empty.
    pub fn selection_range(&self) -> (r: Option<(usize, usize)>)
        ensures
            r == sel_range(self.state()),
    {
        let anchor = match self.selection_anchor {
            Some(a) => a,
            None => return None,
        };
        if anchor == self.cursor_pos {
            return None;
        }
        if anchor < self.cursor_pos {
            Some((anchor, self.cursor_pos))
        } else {
            Some((self.cursor_pos, anchor))
        }
    }

    pub fn select_all(&mut self)
        ensures
            final(self).model() == with_state(
                old(self).model(),
                EditState {
                    selection_anchor: Some(0),
                    cursor_pos: byte_len(old(self).text@) as usize,
                    ..old(self).state()
                },
            ),
    {
        self.selection_anchor = Some(0);
        self.cursor_pos = crate::utf8_text::str_byte_len(self.text.as_str());
    }
}

// ── Undo / redo ──────────────────────────────────────────────────────────────

impl TextBox {
    fn snapshot(&self) -> (r: HistoryEntry)
        ensures
            r.state() == self.state(),
    {
        HistoryEntry {
            text: self.text.clone(),
            attributes: clone_attrs(&self.attributes),
            alignment: self.alignment,
            cursor_pos: self.cursor_pos,
            selection_anchor: self.selection_anchor,
            scroll_y: self.scroll_y,
        }
    }

    fn restore(&mut self, entry: HistoryEntry)
        ensures
            final(self).model() == with_state(old(self).model(), entry.state()),
    {
        self.text = entry.text;
        self.attributes = entry.attributes;
        self.alignment = entry.alignment;
        self.cursor_pos = entry.cursor_pos;
        self.selection_anchor = entry.selection_anchor;
        self.scroll_y = entry.scroll_y;
    }

    fn snapshot_differs_from_last(&self, snap: &HistoryEntry) -> (r: bool)
        ensures
            r == differs_from_last(states(self.undo_stack@), snap.state()),
    {
        let n = self.undo_stack.len();
        if n == 0 {
            return true;
        }
        let last = &self.undo_stack[n - 1];
        assert(states(self.undo_stack@).last() == last.state());
        last.text != snap.text || last.alignment != snap.alignment || !attrs_same(
            &last.attributes,
            &snap.attributes,
        )
    }

    /// Saves the current state as an undo checkpoint and clears the redo
    /// stack; call it before the change that the checkpoint should undo.
    pub fn push_history(&mut self)
        ensures
            final(self).model() == model_push_history(old(self).model()),
    {
        let snap = self.snapshot();
        if !self.snapshot_differs_from_last(&snap) {
            return ;
        }
        let ghost u0 = self.undo_stack@;
        if self.undo_stack.len() >= UNDO_LIMIT {
            self.undo_stack.remove(0);
            assert(states(self.undo_stack@) =~= states(u0).drop_first());
        }
        let ghost u1 = self.undo_stack@;
        self.undo_stack.push(snap);
        assert(states(self.undo_stack@) =~= states(u1).push(snap.state()));
        self.redo_stack.clear();
        assert(states(self.redo_stack@) =~= Seq::empty());
    }

    /// Returns to the last checkpoint, keeping the current state for redo.
    pub fn undo(&mut self) -> (r: bool)
        ensures
            (final(self).model(), r) == model_undo(old(self).model()),
    {
        let ghost u0 = self.undo_stack@;
        let ghost r0 = self.redo_stack@;
        if let Some(prev) = self.undo_stack.pop() {
            assert(states(self.undo_stack@) =~= states(u0).drop_last());
            let current = self.snapshot();
            self.redo_stack.push(current);
            assert(states(self.redo_stack@) =~= states(r0).push(current.state()));
            self.restore(prev);
            true
        } else {
            false
        }
    }

    /// Re-applies the last undone change, keeping the current state for undo.
    pub fn redo(&mut self) -> (r: bool)
        ensures
            (final(self).model(), r) == model_redo(old(self).model()),
    {
        let ghost u0 = self.undo_stack@;
        let ghost r0 = self.redo_stack@;
        if let Some(next) = self.redo_stack.pop() {
            assert(states(self.redo_stack@) =~= states(r0).drop_last());
            let current = self.snapshot();
            self.undo_stack.push(current);
            assert(states(self.undo_stack@) =~= states(u0).push(current.state()));
            self.restore(next);
            true
        } else {
            false
        }
    }
}

// ── Editing ──────────────────────────────────────────────────────────────────

/// The cursor, and the selection anchor when there is one, lie on character
/// boundaries of the text.
pub open spec fn positions_ok(s: EditState) -> bool {
    &&& boundary(s.text, s.cursor_pos as int)
    &&& match s.selection_anchor {
        Some(a) => boundary(s.text, a as int),
        None => true,
    }
}

/// Deleting the selection keeps the spans' arithmetic in `u32`.
pub open spec fn selection_delete_fits(s: EditState) -> bool {
    match sel_range(s) {
        Some((a, b)) => delete_fits(s.attributes, a as u32, (b - a) as u32),
        None => true,
    }
}

/// The state after the selection, if not empty, is deleted; and whether it was.
pub open spec fn model_delete_selection(s: EditState) -> (EditState, bool) {
    match sel_range(s) {
        None => (s, false),
        Some((a, b)) => (
            EditState {
                text: cut(s.text, a as int, b as int),
                attributes: after_delete(s.attributes, a as u32, (b - a) as u32),
                cursor_pos: a,
                selection_anchor: None,
                ..s
            },
            true,
        ),
    }
}

/// Inserting `n` bytes at the cursor, once the selection is deleted, is
/// possible without a panic.
pub open spec fn insert_ok(s: EditState, n: nat) -> bool {
    let d = model_delete_selection(s).0;
    &&& positions_ok(s)
    &&& selection_delete_fits(s)
    &&& insert_fits(d.attributes, d.cursor_pos as u32, n as u32)
    &&& byte_len(d.text) + n <= isize::MAX
}

/// The state after `ins` replaces the selection, or is inserted at the cursor.
pub open spec fn model_insert(s: EditState, ins: Seq<char>) -> EditState {
    let d = model_delete_selection(s).0;
    EditState {
        text: spliced(d.text, d.cursor_pos as int, ins),
        attributes: after_insert(d.attributes, d.cursor_pos as u32, byte_len(ins) as u32),
        cursor_pos: (d.cursor_pos + byte_len(ins)) as usize,
        ..d
    }
}

/// Deleting backwards is possible without a panic.
pub open spec fn delete_backward_ok(s: EditState) -> bool {
    &&& positions_ok(s)
    &&& selection_delete_fits(s)
    &&& sel_range(s) is None && s.cursor_pos > 0 ==> delete_fits(
        s.attributes,
        prev_boundary(s.text, s.cursor_pos as int) as u32,
        (s.cursor_pos - prev_boundary(s.text, s.cursor_pos as int)) as u32,
    )
}

/// The state after Backspace: the selection, or else the character before
/// the cursor, is deleted.
pub open spec fn model_delete_backward(s: EditState) -> EditState {
    let (d, had) = model_delete_selection(s);
    if had {
        d
    } else if s.cursor_pos > 0 {
        let p = prev_boundary(s.text, s.cursor_pos as int);
        EditState {
            text: cut(s.text, p, s.cursor_pos as int),
            attributes: after_delete(s.attributes, p as u32, (s.cursor_pos - p) as u32),
            cursor_pos: p as usize,
            ..s
        }
    } else {
        s
    }
}

/// Deleting forwards is possible without a panic.
pub open spec fn delete_forward_ok(s: EditState) -> bool {
    &&& positions_ok(s)
    &&& selection_delete_fits(s)
    &&& sel_range(s) is None && s.cursor_pos < byte_len(s.text) ==> delete_fits(
        s.attributes,
        s.cursor_pos as u32,
        (next_boundary(s.text, s.cursor_pos as int) - s.cursor_pos) as u32,
    )
}

/// The state after Delete: the selection, or else the character after the
/// cursor, is deleted.
pub open spec fn model_delete_forward(s: EditState) -> EditState {
    let (d, had) = model_delete_selection(s);
    if had {
        d
    } else if s.cursor_pos < byte_len(s.text) {
        let nx = next_boundary(s.text, s.cursor_pos as int);
        EditState {
            text: cut(s.text, s.cursor_pos as int, nx),
            attributes: after_delete(s.attributes, s.cursor_pos as u32, (nx - s.cursor_pos) as u32),
            ..s
        }
    } else {
        s
    }
}

proof fn lemma_delete_selection_positions(s: EditState)
    requires
        positions_ok(s),
    ensures
        positions_ok(model_delete_selection(s).0),
        model_delete_selection(s).1 ==> char_index(
            model_delete_selection(s).0.text,
            model_delete_selection(s).0.cursor_pos as int,
        ) == char_index(s.text, model_delete_selection(s).0.cursor_pos as int),
        byte_len(model_delete_selection(s).0.text) <= byte_len(s.text),
        model_delete_selection(s).0.cursor_pos <= byte_len(model_delete_selection(s).0.text),
{
    match sel_range(s) {
        Some((a, b)) => {
            lemma_cut_positions(s.text, a as int, b as int);
            lemma_boundary_le_len(cut(s.text, a as int, b as int), a as int);
        },
        None => {
            lemma_boundary_le_len(s.text, s.cursor_pos as int);
        },
    }
}

impl TextBox {
    /// Deletes the selection, if it is not empty; returns whether it did.
    pub fn delete_selection(&mut self) -> (r: bool)
        requires
            sel_range(old(self).state()) is Some ==> positions_ok(old(self).state()),
            selection_delete_fits(old(self).state()),
        ensures
            (final(self).state(), r) == model_delete_selection(old(self).state()),
            final(self).model() == with_state(old(self).model(), final(self).state()),
            positions_ok(old(self).state()) ==> positions_ok(final(self).state()),
    {
        proof {
            if positions_ok(self.state()) {
                lemma_delete_selection_positions(self.state());
            }
        }
        if let Some((start, end)) = self.selection_range() {
            remove_between(&mut self.text, start, end);
            shift_attrs_delete(&mut self.attributes, start, end - start);
            self.cursor_pos = start;
            self.selection_anchor = None;
            true
        } else {
            false
        }
    }

    /// Replaces the selection by `ch`, or inserts it at the cursor.
    pub fn insert_char(&mut self, ch: char)
        requires
            insert_ok(old(self).state(), encode_scalar(ch as u32).len()),
        ensures
            final(self).state() == model_insert(old(self).state(), seq![ch]),
            final(self).model() == with_state(old(self).model(), final(self).state()),
            positions_ok(final(self).state()),
    {
        proof {
            lemma_encode_single(ch);
        }
        self.delete_selection();
        let pos = self.cursor_pos;
        proof {
            lemma_delete_selection_positions(old(self).state());
            lemma_spliced_positions(self.text@, pos as int, seq![ch]);
        }
        insert_char_at(&mut self.text, pos, ch);
        let n = char_utf8_len(ch);
        shift_attrs_insert(&mut self.attributes, pos, n);
        self.cursor_pos = pos + n;
        proof {
            if let Some(a) = self.selection_anchor {
                assert(a == pos);
            }
        }
    }

    /// Replaces the selection by `s`, or inserts it at the cursor.
    pub fn insert_text(&mut self, s: &str)
        requires
            insert_ok(old(self).state(), byte_len(s@)),
        ensures
            final(self).state() == model_insert(old(self).state(), s@),
            final(self).model() == with_state(old(self).model(), final(self).state()),
            positions_ok(final(self).state()),
    {
        self.delete_selection();
        let pos = self.cursor_pos;
        let n = str_byte_len(s);
        proof {
            lemma_delete_selection_positions(old(self).state());
            lemma_spliced_positions(self.text@, pos as int, s@);
        }
        insert_at(&mut self.text, pos, s);
        shift_attrs_insert(&mut self.attributes, pos, n);
        self.cursor_pos = pos + n;
        proof {
            if let Some(a) = self.selection_anchor {
                assert(a == pos);
            }
        }
    }

    /// Deletes the selection, or else the character before the cursor.
    pub fn delete_backward(&mut self)
        requires
            delete_backward_ok(old(self).state()),
        ensures
            final(self).state() == model_delete_backward(old(self).state()),
            final(self).model() == with_state(old(self).model(), final(self).state()),
            boundary(final(self).text@, final(self).cursor_pos as int),
    {
        if !self.delete_selection() && self.cursor_pos > 0 {
            let cur = self.cursor_pos;
            let prev = prev_char_boundary(self.text.as_str(), cur);
            let ghost t = self.text@;
            proof {
                lemma_boundary_index(t, cur as int);
                lemma_prev_boundary(t, char_index(t, cur as int), prev as int);
                lemma_boundary_at(t, char_index(t, cur as int) - 1);
                lemma_cut_positions(t, prev as int, cur as int);
            }
            remove_between(&mut self.text, prev, cur);
            shift_attrs_delete(&mut self.attributes, prev, cur - prev);
            self.cursor_pos = prev;
        }
    }

    /// Deletes the selection, or else the character after the cursor.
    pub fn delete_forward(&mut self)
        requires
            delete_forward_ok(old(self).state()),
        ensures
            final(self).state() == model_delete_forward(old(self).state()),
            final(self).model() == with_state(old(self).model(), final(self).state()),
            positions_ok(final(self).state()),
    {
        if !self.delete_selection() && self.cursor_pos < str_byte_len(self.text.as_str()) {
            let cur = self.cursor_pos;
            let next = next_char_boundary(self.text.as_str(), cur);
            let ghost t = self.text@;
            proof {
                lemma_boundary_index(t, cur as int);
                lemma_byte_pos_mono(t, char_index(t, cur as int), t.len() as int);
                lemma_next_boundary(t, char_index(t, cur as int), next as int);
                lemma_boundary_at(t, char_index(t, cur as int) + 1);
                lemma_cut_positions(t, cur as int, next as int);
            }
            remove_between(&mut self.text, cur, next);
            shift_attrs_delete(&mut self.attributes, cur, next - cur);
            proof {
                if let Some(a) = self.selection_anchor {
                    assert(a == cur);
                }
            }
        }
    }
}

// ── Lines, words and cursor movement ─────────────────────────────────────────

/// Index of the first character of the line holding character `c`.
pub open spec fn line_start(s: Seq<char>, c: int) -> int
    decreases c,
{
    if c <= 0 || s[c - 1] == '\n' {
        c
    } else {
        line_start(s, c - 1)
    }
}

/// Index of the line break (or text end) that ends the line holding character `c`.
pub open spec fn line_end(s: Seq<char>, c: int) -> int
    decreases s.len() - c,
{
    if c >= s.len() || s[c] == '\n' {
        c
    } else {
        line_end(s, c + 1)
    }
}

/// Index of the first character of the word that ends at or runs through `c`.
pub open spec fn word_start(s: Seq<char>, c: int) -> int
    decreases c,
{
    if c <= 0 || is_whitespace_char(s[c - 1]) {
        c
    } else {
        word_start(s, c - 1)
    }
}

/// Index just past the word that starts at or runs through `c`.
pub open spec fn word_end(s: Seq<char>, c: int) -> int
    decreases s.len() - c,
{
    if c >= s.len() || is_whitespace_char(s[c]) {
        c
    } else {
        word_end(s, c + 1)
    }
}

/// `x` capped at the text's length.
pub open spec fn clamp_len(s: Seq<char>, x: usize) -> int {
    if x > byte_len(s) {
        byte_len(s) as int
    } else {
        x as int
    }
}

/// Byte range of the word around the boundary `p`.
pub open spec fn word_range(s: Seq<char>, p: int) -> (usize, usize) {
    (
        byte_pos(s, word_start(s, char_index(s, p))) as usize,
        byte_pos(s, word_end(s, char_index(s, p))) as usize,
    )
}

/// The anchor after a movement that extends the selection or drops it.
pub open spec fn moved_anchor(s: EditState, extend: bool) -> Option<usize> {
    if extend && s.selection_anchor is None {
        Some(s.cursor_pos)
    } else if !extend {
        None
    } else {
        s.selection_anchor
    }
}

pub open spec fn model_move_left(s: EditState, extend: bool) -> EditState {
    let back = if s.cursor_pos > 0 {
        prev_boundary(s.text, s.cursor_pos as int) as usize
    } else {
        s.cursor_pos
    };
    if extend {
        EditState {
            selection_anchor: if s.selection_anchor is None {
                Some(s.cursor_pos)
            } else {
                s.selection_anchor
            },
            cursor_pos: back,
            ..s
        }
    } else {
        EditState {
            cursor_pos: match sel_range(s) {
                Some((a, _)) => a,
                None => back,
            },
            selection_anchor: None,
            ..s
        }
    }
}

pub open spec fn model_move_right(s: EditState, extend: bool) -> EditState {
    let fwd = if s.cursor_pos < byte_len(s.text) {
        next_boundary(s.text, s.cursor_pos as int) as usize
    } else {
        s.cursor_pos
    };
    if extend {
        EditState {
            selection_anchor: if s.selection_anchor is None {
                Some(s.cursor_pos)
            } else {
                s.selection_anchor
            },
            cursor_pos: fwd,
            ..s
        }
    } else {
        EditState {
            cursor_pos: match sel_range(s) {
                Some((_, b)) => b,
                None => fwd,
            },
            selection_anchor: None,
            ..s
        }
    }
}

pub open spec fn model_move_home(s: EditState, extend: bool) -> EditState {
    EditState {
        selection_anchor: moved_anchor(s, extend),
        cursor_pos: byte_pos(s.text, line_start(s.text, char_index(s.text, s.cursor_pos as int)))
            as usize,
        ..s
    }
}

pub open spec fn model_move_end(s: EditState, extend: bool) -> EditState {
    EditState {
        selection_anchor: moved_anchor(s, extend),
        cursor_pos: byte_pos(s.text, line_end(s.text, char_index(s.text, s.cursor_pos as int)))
            as usize,
        ..s
    }
}

pub open spec fn model_select_word(s: EditState, pos: usize) -> EditState {
    let p = clamp_len(s.text, pos);
    let (a, b) = word_range(s.text, p);
    if a < b {
        EditState { selection_anchor: Some(a), cursor_pos: b, ..s }
    } else {
        EditState { cursor_pos: p as usize, selection_anchor: None, ..s }
    }
}

/// The selected text, when the selection is not empty.
pub open spec fn selected_text(s: EditState) -> Option<Seq<char>> {
    match sel_range(s) {
        Some((a, b)) => Some(s.text.subrange(char_index(s.text, a as int), char_index(s.text, b as int))),
        None => None,
    }
}

/// Both ends of a non-empty selection lie on character boundaries.
pub open spec fn selection_ok(s: EditState) -> bool {
    match sel_range(s) {
        Some((a, b)) => boundary(s.text, a as int) && boundary(s.text, b as int),
        None => true,
    }
}

fn line_start_at(text: &str, pos: usize) -> (r: usize)
    requires
        boundary(text@, pos as int),
    ensures
        r == byte_pos(text@, line_start(text@, char_index(text@, pos as int))),
{
    let ghost s = text@;
    let ghost ci = char_index(s, pos as int);
    proof {
        lemma_boundary_index(s, pos as int);
    }
    let mut i = pos;
    let ghost mut j = ci;
    while i > 0
        invariant
            0 <= j <= s.len(),
            s == text@,
            ci == char_index(s, pos as int),
            i == byte_pos(s, j),
            line_start(s, ci) == line_start(s, j),
        decreases i,
    {
        proof {
            lemma_byte_pos_mono(s, 0, j);
        }
        let prev = prev_char_boundary(text, i);
        proof {
            lemma_prev_boundary(s, j, prev as int);
            lemma_boundary_at(s, j - 1);
            lemma_byte_pos_mono(s, j - 1, s.len() as int);
            lemma_byte_pos_mono(s, j - 1, j);
        }
        let c = char_at(text, prev);
        if c == '\n' {
            assert(c == s[j - 1]);
            assert(line_start(s, j) == j);
            return i;
        }
        i = prev;
        proof {
            j = j - 1;
        }
    }
    proof {
        lemma_byte_pos_mono(s, 0, j);
    }
    i
}

fn line_end_at(text: &str, pos: usize) -> (r: usize)
    requires
        boundary(text@, pos as int),
    ensures
        r == byte_pos(text@, line_end(text@, char_index(text@, pos as int))),
{
    let ghost s = text@;
    let ghost ci = char_index(s, pos as int);
    proof {
        lemma_boundary_index(s, pos as int);
    }
    let len = str_byte_len(text);
    let mut i = pos;
    let ghost mut j = ci;
    while i < len
        invariant
            0 <= j <= s.len(),
            s == text@,
            ci == char_index(s, pos as int),
            len == byte_len(s),
            i == byte_pos(s, j),
            line_end(s, ci) == line_end(s, j),
        decreases len - i,
    {
        proof {
            lemma_byte_pos_mono(s, j, s.len() as int);
            lemma_boundary_at(s, j);
        }
        let c = char_at(text, i);
        if c == '\n' {
            return i;
        }
        let next = next_char_boundary(text, i);
        proof {
            lemma_next_boundary(s, j, next as int);
            j = j + 1;
        }
        i = next;
    }
    proof {
        if j < s.len() {
            lemma_byte_pos_mono(s, j, s.len() as int);
        }
    }
    i
}

fn word_start_at(text: &str, pos: usize) -> (r: usize)
    requires
        boundary(text@, pos as int),
    ensures
        r == byte_pos(text@, word_start(text@, char_index(text@, pos as int))),
{
    let ghost s = text@;
    let ghost ci = char_index(s, pos as int);
    proof {
        lemma_boundary_index(s, pos as int);
    }
    let mut i = pos;
    let ghost mut j = ci;
    while i > 0
        invariant
            0 <= j <= s.len(),
            s == text@,
            ci == char_index(s, pos as int),
            i == byte_pos(s, j),
            word_start(s, ci) == word_start(s, j),
        decreases i,
    {
        proof {
            lemma_byte_pos_mono(s, 0, j);
        }
        let prev = prev_char_boundary(text, i);
        proof {
            lemma_prev_boundary(s, j, prev as int);
            lemma_boundary_at(s, j - 1);
            lemma_byte_pos_mono(s, j - 1, s.len() as int);
            lemma_byte_pos_mono(s, j - 1, j);
        }
        let c = char_at(text, prev);
        if char_is_whitespace(c) {
            return i;
        }
        i = prev;
        proof {
            j = j - 1;
        }
    }
    proof {
        lemma_byte_pos_mono(s, 0, j);
    }
    i
}

fn word_end_at(text: &str, pos: usize) -> (r: usize)
    requires
        boundary(text@, pos as int),
    ensures
        r == byte_pos(text@, word_end(text@, char_index(text@, pos as int))),
{
    let ghost s = text@;
    let ghost ci = char_index(s, pos as int);
    proof {
        lemma_boundary_index(s, pos as int);
    }
    let len = str_byte_len(text);
    let mut i = pos;
    let ghost mut j = ci;
    while i < len
        invariant
            0 <= j <= s.len(),
            s == text@,
            ci == char_index(s, pos as int),
            len == byte_len(s),
            i == byte_pos(s, j),
            word_end(s, ci) == word_end(s, j),
        decreases len - i,
    {
        proof {
            lemma_byte_pos_mono(s, j, s.len() as int);
            lemma_boundary_at(s, j);
        }
        let c = char_at(text, i);
        if char_is_whitespace(c) {
            return i;
        }
        let next = next_char_boundary(text, i);
        proof {
            lemma_next_boundary(s, j, next as int);
            j = j + 1;
        }
        i = next;
    }
    proof {
        if j < s.len() {
            lemma_byte_pos_mono(s, j, s.len() as int);
        }
    }
    i
}

impl TextBox {
    /// The selection range if it is not empty, otherwise the byte range of
    /// the word around the cursor.
    pub fn selection_or_word_range(&self) -> (r: (usize, usize))
        requires
            boundary(self.text@, clamp_len(self.text@, self.cursor_pos)),
        ensures
            r == match sel_range(self.state()) {
                Some(range) => range,
                None => word_range(self.text@, clamp_len(self.text@, self.cursor_pos)),
            },
    {
        if let Some(range) = self.selection_range() {
            return range;
        }
        let len = str_byte_len(self.text.as_str());
        let pos = if self.cursor_pos < len { self.cursor_pos } else { len };
        let start = word_start_at(self.text.as_str(), pos);
        let end = word_end_at(self.text.as_str(), pos);
        (start, end)
    }

    /// Selects the word around byte `pos`; places the cursor there when it
    /// is not inside a word.
    pub fn select_word_at(&mut self, pos: usize)
        requires
            boundary(old(self).text@, clamp_len(old(self).text@, pos)),
        ensures
            final(self).model() == with_state(
                old(self).model(),
                model_select_word(old(self).state(), pos),
            ),
    {
        let len = str_byte_len(self.text.as_str());
        let pos = if pos < len { pos } else { len };
        let start = word_start_at(self.text.as_str(), pos);
        let end = word_end_at(self.text.as_str(), pos);
        if start < end {
            self.selection_anchor = Some(start);
            self.cursor_pos = end;
        } else {
            self.cursor_pos = pos;
            self.selection_anchor = None;
        }
    }

    /// The selected text, for the clipboard.
    pub fn copy_selection(&self) -> (r: Option<String>)
        requires
            selection_ok(self.state()),
        ensures
            match r {
                Some(t) => selected_text(self.state()) == Some(t@),
                None => selected_text(self.state()) is None,
            },
    {
        if let Some((start, end)) = self.selection_range() {
            Some(substring(self.text.as_str(), start, end))
        } else {
            None
        }
    }

    pub fn move_cursor_left(&mut self, extend: bool)
        ensures
            final(self).model() == with_state(old(self).model(), model_move_left(old(self).state(), extend)),
    {
        if extend {
            if self.selection_anchor.is_none() {
                self.selection_anchor = Some(self.cursor_pos);
            }
            if self.cursor_pos > 0 {
                self.cursor_pos = prev_char_boundary(self.text.as_str(), self.cursor_pos);
            }
        } else {
            if let Some((start, _)) = self.selection_range() {
                self.cursor_pos = start;
            } else if self.cursor_pos > 0 {
                self.cursor_pos = prev_char_boundary(self.text.as_str(), self.cursor_pos);
            }
            self.selection_anchor = None;
        }
    }

    pub fn move_cursor_right(&mut self, extend: bool)
        ensures
            final(self).model() == with_state(old(self).model(), model_move_right(old(self).state(), extend)),
    {
        let len = str_byte_len(self.text.as_str());
        if extend {
            if self.selection_anchor.is_none() {
                self.selection_anchor = Some(self.cursor_pos);
            }
            if self.cursor_pos < len {
                self.cursor_pos = next_char_boundary(self.text.as_str(), self.cursor_pos);
            }
        } else {
            if let Some((_, end)) = self.selection_range() {
                self.cursor_pos = end;
            } else if self.cursor_pos < len {
                self.cursor_pos = next_char_boundary(self.text.as_str(), self.cursor_pos);
            }
            self.selection_anchor = None;
        }
    }

    /// Moves the cursor to the start of its line.
    pub fn move_cursor_home(&mut self, extend: bool)
        requires
            boundary(old(self).text@, old(self).cursor_pos as int),
        ensures
            final(self).model() == with_state(old(self).model(), model_move_home(old(self).state(), extend)),
    {
        if extend && self.selection_anchor.is_none() {
            self.selection_anchor = Some(self.cursor_pos);
        } else if !extend {
            self.selection_anchor = None;
        }
        self.cursor_pos = line_start_at(self.text.as_str(), self.cursor_pos);
    }

    /// Moves the cursor to the end of its line.
    pub fn move_cursor_end(&mut self, extend: bool)
        requires
            boundary(old(self).text@, old(self).cursor_pos as int),
        ensures
            final(self).model() == with_state(old(self).model(), model_move_end(old(self).state(), extend)),
    {
        if extend && self.selection_anchor.is_none() {
            self.selection_anchor = Some(self.cursor_pos);
        } else if !extend {
            self.selection_anchor = None;
        }
        self.cursor_pos = line_end_at(self.text.as_str(), self.cursor_pos);
    }
}

// ── Key handling ─────────────────────────────────────────────────────────────

/// The key can be handled without a panic.
pub open spec fn key_ok(s: EditState, key: Key, ctrl: bool) -> bool {
    if ctrl {
        match key {
            Key::Other(Some(c)) => (c == 'c' || c == 'C' || c == 'x' || c == 'X') ==> selection_ok(s),
            _ => true,
        }
    } else {
        match key {
            Key::Home | Key::End => boundary(s.text, s.cursor_pos as int),
            Key::BackSpace => delete_backward_ok(s),
            Key::Delete => delete_forward_ok(s),
            Key::Return | Key::KpEnter => insert_ok(s, encode_scalar('\n' as u32).len()),
            Key::Other(Some(ch)) => !is_control_char(ch) ==> insert_ok(
                s,
                encode_scalar(ch as u32).len(),
            ),
            _ => true,
        }
    }
}

/// The state after a key press, the action left to the caller, and the text
/// to put on the clipboard.
pub open spec fn model_key(s: EditState, key: Key, ctrl: bool, shift: bool) -> (
    EditState,
    KeyAction,
    Option<Seq<char>>,
) {
    if ctrl {
        match key {
            Key::Other(Some(c)) => if c == 'a' || c == 'A' {
                (
                    EditState {
                        selection_anchor: Some(0),
                        cursor_pos: byte_len(s.text) as usize,
                        ..s
                    },
                    KeyAction::Handled,
                    None,
                )
            } else if c == 'c' || c == 'C' {
                (s, KeyAction::Handled, selected_text(s))
            } else if c == 'x' || c == 'X' {
                (s, KeyAction::RequestCut, selected_text(s))
            } else if c == 'v' || c == 'V' {
                (s, KeyAction::RequestPaste, None)
            } else if c == 'b' || c == 'B' {
                (s, KeyAction::FormatBold, None)
            } else if c == 'i' || c == 'I' {
                (s, KeyAction::FormatItalic, None)
            } else if c == 'u' || c == 'U' {
                (s, KeyAction::FormatUnderline, None)
            } else if c == 'z' || c == 'Z' {
                (s, if shift {
                    KeyAction::Redo
                } else {
                    KeyAction::Undo
                }, None)
            } else if c == 'y' || c == 'Y' {
                (s, KeyAction::Redo, None)
            } else {
                (s, KeyAction::Handled, None)
            },
            _ => (s, KeyAction::Handled, None),
        }
    } else {
        match key {
            Key::Escape => (s, KeyAction::ExitEdit, None),
            Key::Left => (model_move_left(s, shift), KeyAction::Handled, None),
            Key::Right => (model_move_right(s, shift), KeyAction::Handled, None),
            Key::Up => (s, KeyAction::MoveVertical { up: true, extend: shift }, None),
            Key::Down => (s, KeyAction::MoveVertical { up: false, extend: shift }, None),
            Key::Home => (model_move_home(s, shift), KeyAction::Handled, None),
            Key::End => (model_move_end(s, shift), KeyAction::Handled, None),
            Key::BackSpace => (model_delete_backward(s), KeyAction::Handled, None),
            Key::Delete => (model_delete_forward(s), KeyAction::Handled, None),
            Key::Return | Key::KpEnter => (model_insert(s, seq!['\n']), KeyAction::Handled, None),
            Key::Other(Some(ch)) => (
                if !is_control_char(ch) {
                    model_insert(s, seq![ch])
                } else {
                    s
                },
                KeyAction::Handled,
                None,
            ),
            Key::Other(None) => (s, KeyAction::Handled, None),
        }
    }
}

pub open spec fn opt_text(o: Option<String>) -> Option<Seq<char>> {
    match o {
        Some(t) => Some(t@),
        None => None,
    }
}

impl TextBox {
    /// Handles a key press while the frame is edited. Returns what is left for
    /// the caller to do and, for copy and cut, the text for the clipboard.
    pub fn handle_key(&mut self, key: Key, ctrl: bool, shift: bool) -> (r: (KeyAction, Option<String>))
        requires
            key_ok(old(self).state(), key, ctrl),
        ensures
            (final(self).state(), r.0, opt_text(r.1)) == model_key(old(self).state(), key, ctrl, shift),
            final(self).model() == with_state(old(self).model(), final(self).state()),
    {
        if ctrl {
            return match key {
                Key::Other(Some('a')) | Key::Other(Some('A')) => {
                    self.select_all();
                    (KeyAction::Handled, None)
                },
                Key::Other(Some('c')) | Key::Other(Some('C')) => (KeyAction::Handled, self.copy_selection()),
                Key::Other(Some('x')) | Key::Other(Some('X')) => (KeyAction::RequestCut, self.copy_selection()),
                Key::Other(Some('v')) | Key::Other(Some('V')) => (KeyAction::RequestPaste, None),
                Key::Other(Some('b')) | Key::Other(Some('B')) => (KeyAction::FormatBold, None),
                Key::Other(Some('i')) | Key::Other(Some('I')) => (KeyAction::FormatItalic, None),
                Key::Other(Some('u')) | Key::Other(Some('U')) => (KeyAction::FormatUnderline, None),
                Key::Other(Some('z')) | Key::Other(Some('Z')) => {
                    if shift {
                        (KeyAction::Redo, None)
                    } else {
                        (KeyAction::Undo, None)
                    }
                },
                Key::Other(Some('y')) | Key::Other(Some('Y')) => (KeyAction::Redo, None),
                _ => (KeyAction::Handled, None),
            };
        }
        match key {
            Key::Escape => (KeyAction::ExitEdit, None),
            Key::Left => {
                self.move_cursor_left(shift);
                (KeyAction::Handled, None)
            },
            Key::Right => {
                self.move_cursor_right(shift);
                (KeyAction::Handled, None)
            },
            Key::Up => (KeyAction::MoveVertical { up: true, extend: shift }, None),
            Key::Down => (KeyAction::MoveVertical { up: false, extend: shift }, None),
            Key::Home => {
                self.move_cursor_home(shift);
                (KeyAction::Handled, None)
            },
            Key::End => {
                self.move_cursor_end(shift);
                (KeyAction::Handled, None)
            },
            Key::BackSpace => {
                self.delete_backward();
                (KeyAction::Handled, None)
            },
            Key::Delete => {
                self.delete_forward();
                (KeyAction::Handled, None)
            },
            Key::Return | Key::KpEnter => {
                self.insert_char('\n');
                (KeyAction::Handled, None)
            },
            Key::Other(Some(ch)) => {
                if !char_is_control(ch) {
                    self.insert_char(ch);
                }
                (KeyAction::Handled, None)
            },
            Key::Other(None) => (KeyAction::Handled, None),
        }
    }
}

// ── Copies ───────────────────────────────────────────────────────────────────

fn clone_opt_string(o: &Option<String>) -> (r: Option<String>)
    ensures
        r == *o,
{
    match o {
        Some(t) => Some(t.clone()),
        None => None,
    }
}

impl HistoryEntry {
    fn clone_entry(&self) -> (r: HistoryEntry)
        ensures
            r.state() == self.state(),
    {
        HistoryEntry {
            text: self.text.clone(),
            attributes: clone_attrs(&self.attributes),
            alignment: self.alignment,
            cursor_pos: self.cursor_pos,
            selection_anchor: self.selection_anchor,
            scroll_y: self.scroll_y,
        }
    }
}

fn clone_entries(v: &Vec<HistoryEntry>) -> (r: Vec<HistoryEntry>)
    ensures
        states(r@) == states(v@),
{
    let mut r: Vec<HistoryEntry> = Vec::new();
    let n = v.len();
    for i in 0..n
        invariant
            n == v@.len(),
            states(r@) == states(v@.take(i as int)),
    {
        let e = v[i].clone_entry();
        let ghost before = r@;
        r.push(e);
        assert(states(r@) =~= states(before).push(e.state()));
        assert(v@.take(i + 1) =~= v@.take(i as int).push(v@[i as int]));
        assert(states(v@.take(i + 1)) =~= states(v@.take(i as int)).push(v@[i as int].state()));
    }
    assert(v@.take(n as int) =~= v@);
    r
}

impl Default for TextBox {
    /// An empty frame with the default settings.
    fn default() -> (r: Self)
        ensures
            r.model() == new_model(Seq::empty()),
    {
        TextBox::new(String::new())
    }
}

impl TextBox {
    /// A copy of the frame with the same model.
    pub fn clone_box(&self) -> (r: TextBox)
        ensures
            r.model() == self.model(),
    {
        TextBox {
            text: self.text.clone(),
            font_description: self.font_description.clone(),
            padding: self.padding,
            line_spacing: self.line_spacing,
            attributes: clone_attrs(&self.attributes),
            alignment: self.alignment,
            next_frame_id: clone_opt_string(&self.next_frame_id),
            prev_frame_id: clone_opt_string(&self.prev_frame_id),
            text_offset: self.text_offset,
            overflow_hint: self.overflow_hint,
            cursor_pos: self.cursor_pos,
            selection_anchor: self.selection_anchor,
            scroll_y: self.scroll_y,
            undo_stack: clone_entries(&self.undo_stack),
            redo_stack: clone_entries(&self.redo_stack),
        }
    }

    /// Returns a copy with `{{page}}` and `{{numpages}}` replaced by the given values.
    pub fn substitute_page_numbers(&self, page_num: usize, total_pages: usize) -> (r: TextBox)
        ensures
            r.model() == with_state(
                self.model(),
                EditState {
                    text: replace_all(
                        replace_all(self.text@, "{{page}}"@, decimal(page_num as nat)),
                        "{{numpages}}"@,
                        decimal(total_pages as nat),
                    ),
                    ..self.state()
                },
            ),
    {
        let mut tb = self.clone_box();
        let page = usize_to_decimal(page_num);
        let total = usize_to_decimal(total_pages);
        proof {
            reveal_strlit("{{page}}");
            reveal_strlit("{{numpages}}");
        }
        let first = str_replace(tb.text.as_str(), "{{page}}", page.as_str());
        tb.text = str_replace(first.as_str(), "{{numpages}}", total.as_str());
        tb
    }
}

// ── Finishing layout-driven operations ───────────────────────────────────────

/// The end of the prefix that a layout of a chained frame needs: long chained
/// texts are cut some way past the cursor, at a character boundary.
pub open spec fn display_end(tb: BoxModel) -> Option<usize> {
    let len = byte_len(tb.state.text);
    if (tb.frame.next_frame_id is Some || tb.frame.prev_frame_id is Some) && len > 5000 {
        let want = if tb.state.cursor_pos + 1000 > 5000 {
            tb.state.cursor_pos + 1000
        } else {
            5000
        };
        let limit = if want < len {
            want
        } else {
            len as int
        };
        Some(ceil_boundary(tb.state.text, limit) as usize)
    } else {
        None
    }
}

/// The cursor after a vertical move to the layout position `hit` (byte index
/// and whether it lies in the trailing half of its character); `None` when
/// the move went above the text.
pub open spec fn model_vertical_move(s: EditState, extend: bool, hit: Option<(usize, bool)>) -> EditState {
    EditState {
        selection_anchor: moved_anchor(s, extend),
        cursor_pos: match hit {
            None => 0,
            Some((b, trailing)) => if trailing && b < byte_len(s.text) {
                next_boundary(s.text, b as int) as usize
            } else {
                b
            },
        },
        ..s
    }
}

/// The text position of a layout hit: the trailing half of a character
/// stands for the position after it.
pub open spec fn hit_position(s: Seq<char>, byte_idx: usize, trailing: bool) -> usize {
    if trailing && byte_idx < byte_len(s) {
        next_boundary(s, byte_idx as int) as usize
    } else {
        byte_idx
    }
}

impl TextBox {
    /// Where the text laid out for display ends, when only a prefix of a long
    /// chained text is laid out.
    pub fn display_text_end(&self) -> (r: Option<usize>)
        requires
            (self.next_frame_id.is_some() || self.prev_frame_id.is_some()) && byte_len(self.text@)
                > 5000 ==> self.cursor_pos + 1000 <= usize::MAX,
        ensures
            r == display_end(self.model()),
    {
        let len = str_byte_len(self.text.as_str());
        if (self.next_frame_id.is_some() || self.prev_frame_id.is_some()) && len > 5000 {
            let want = if self.cursor_pos + 1000 > 5000 { self.cursor_pos + 1000 } else { 5000 };
            let limit = if want < len { want } else { len };
            Some(next_char_boundary_local(self.text.as_str(), limit))
        } else {
            None
        }
    }

    /// Moves the cursor to the layout position reached by a vertical move.
    pub fn finish_vertical_move(&mut self, extend: bool, hit: Option<(usize, bool)>)
        ensures
            final(self).model() == with_state(
                old(self).model(),
                model_vertical_move(old(self).state(), extend, hit),
            ),
    {
        if extend && self.selection_anchor.is_none() {
            self.selection_anchor = Some(self.cursor_pos);
        } else if !extend {
            self.selection_anchor = None;
        }
        match hit {
            None => {
                self.cursor_pos = 0;
            },
            Some((b, trailing)) => {
                let mut new_pos = b;
                if trailing && new_pos < str_byte_len(self.text.as_str()) {
                    new_pos = next_char_boundary(self.text.as_str(), new_pos);
                }
                self.cursor_pos = new_pos;
            },
        }
    }

    /// The text position of a layout hit at `byte_idx`.
    pub fn resolve_hit(&self, byte_idx: usize, trailing: bool) -> (r: usize)
        ensures
            r == hit_position(self.text@, byte_idx, trailing),
    {
        if trailing && byte_idx < str_byte_len(self.text.as_str()) {
            next_char_boundary(self.text.as_str(), byte_idx)
        } else {
            byte_idx
        }
    }
}

// ── Effective formatting ─────────────────────────────────────────────────────

/// What the frame's base font description sets.
#[derive(Debug, Clone)]
pub struct BaseFont {
    pub family: Option<String>,
    /// Size in points, as the bit pattern of its IEEE-754 double.
    pub size_pt: u64,
    pub bold: bool,
    pub italic: bool,
}

/// Some attribute of kind `k` covers byte `pos`.
pub open spec fn has_kind_at(attrs: Seq<TextAttribute>, k: u8, pos: int) -> bool {
    exists|i: int|
        0 <= i < attrs.len() && #[trigger] attrs[i].start <= pos < attrs[i].end
            && crate::format::kind(attrs[i].value) == k
}

/// The formatting in force at `pos`, with what no attribute sets taken from
/// the base font.
pub open spec fn effective_at(attrs: Seq<TextAttribute>, pos: usize, base: BaseFont) -> AttrSnapshot {
    let snap = snapshot_at(attrs, pos as u32 as int);
    AttrSnapshot {
        family: if snap.family is None {
            base.family
        } else {
            snap.family
        },
        size_pt: if snap.size_pt is None {
            Some(base.size_pt)
        } else {
            snap.size_pt
        },
        bold: if has_kind_at(attrs, KIND_BOLD, pos as int) {
            snap.bold
        } else {
            base.bold
        },
        italic: if has_kind_at(attrs, KIND_ITALIC, pos as int) {
            snap.italic
        } else {
            base.italic
        },
        ..snap
    }
}

fn has_kind_covering(attrs: &Vec<TextAttribute>, k: u8, pos: usize) -> (r: bool)
    ensures
        r == has_kind_at(attrs@, k, pos as int),
{
    let n = attrs.len();
    for i in 0..n
        invariant
            n == attrs@.len(),
            forall|j: int|
                0 <= j < i ==> !(#[trigger] attrs@[j].start <= pos < attrs@[j].end
                    && crate::format::kind(attrs@[j].value) == k),
    {
        let a = &attrs[i];
        if (a.start as usize) <= pos && (a.end as usize) > pos && a.value.kind_of() == k {
            return true;
        }
    }
    false
}

impl TextBox {
    /// Like `get_attr_at`, with family, size, weight and style that no
    /// attribute sets taken from the frame's base font.
    pub fn effective_snapshot_with(&self, pos: usize, base: &BaseFont) -> (r: AttrSnapshot)
        ensures
            r == effective_at(self.attributes@, pos, *base),
    {
        let mut snap = self.get_attr_at(pos);
        if snap.family.is_none() {
            snap.family = clone_opt_string(&base.family);
        }
        if snap.size_pt.is_none() {
            snap.size_pt = Some(base.size_pt);
        }
        if !has_kind_covering(&self.attributes, KIND_BOLD, pos) {
            snap.bold = base.bold;
        }
        if !has_kind_covering(&self.attributes, KIND_ITALIC, pos) {
            snap.italic = base.italic;
        }
        snap
    }
}

} // verus!
