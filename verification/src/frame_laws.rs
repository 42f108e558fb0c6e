//! What moving to a line's ends, selecting a word, the shortcut keys, the
//! bounded history and the effective formatting promise, for every input.
use vstd::prelude::*;
use crate::format::{
    covers, kind, value_at, AttrValue, TextAttribute, KIND_BG_COLOR, KIND_BOLD, KIND_COLOR,
    KIND_FAMILY, KIND_ITALIC, KIND_SIZE, KIND_UNDERLINE,
};
use crate::text_box::{
    differs_from_last, effective_at, has_kind_at, line_end, line_start, model_delete_backward,
    model_delete_forward, model_insert, model_key, model_move_end, model_move_home,
    model_move_left, model_move_right, model_push_history, model_select_word, sel_range,
    selected_text, snapshot_at, word_end, word_start, BaseFont, BoxModel, EditState, Key,
    KeyAction,
};
use crate::utf8_text::{
    boundary, byte_len, byte_pos, char_index, cut, is_control_char, is_whitespace_char,
    lemma_boundary_at, lemma_boundary_index, lemma_byte_pos_mono, lemma_next_boundary,
    lemma_prev_boundary, next_boundary, prev_boundary, spliced,
};

verus! {

// ── Lines ────────────────────────────────────────────────────────────────────

proof fn lemma_line_end(s: Seq<char>, c: int)
    requires
        0 <= c <= s.len(),
    ensures
        c <= line_end(s, c) <= s.len(),
        forall|k: int| c <= k < line_end(s, c) ==> s[k] != '\n',
        line_end(s, c) == s.len() || s[line_end(s, c)] == '\n',
    decreases s.len() - c,
{
    if c < s.len() && s[c] != '\n' {
        lemma_line_end(s, c + 1);
    }
}

proof fn lemma_line_start(s: Seq<char>, c: int)
    requires
        0 <= c <= s.len(),
    ensures
        0 <= line_start(s, c) <= c,
        forall|k: int| line_start(s, c) <= k < c ==> s[k] != '\n',
        line_start(s, c) == 0 || s[line_start(s, c) - 1] == '\n',
    decreases c,
{
    if c > 0 && s[c - 1] != '\n' {
        lemma_line_start(s, c - 1);
    }
}

/// Law: End puts the cursor on the first line feed at or after it, or at the
/// end of the text when none follows: no line feed lies between the old and
/// the new cursor, and the character at the new cursor, if any, is a line
/// feed. The text is kept; the selection is extended from the old cursor or
/// dropped.
pub proof fn law_end_stops_at_line_feed(s: EditState, extend: bool)
    requires
        boundary(s.text, s.cursor_pos as int),
        byte_len(s.text) <= usize::MAX,
    ensures
        ({
            let t = s.text;
            let ci = char_index(t, s.cursor_pos as int);
            let r = model_move_end(s, extend);
            &&& r.text == t
            &&& r.attributes == s.attributes
            &&& exists|j: int|
                #![trigger byte_pos(t, j)]
                ci <= j <= t.len() && r.cursor_pos == byte_pos(t, j) && (forall|k: int|
                    ci <= k < j ==> t[k] != '\n') && (j == t.len() || t[j] == '\n')
            &&& !extend ==> r.selection_anchor is None
            &&& extend ==> r.selection_anchor == (if s.selection_anchor is None {
                Some(s.cursor_pos)
            } else {
                s.selection_anchor
            })
        }),
{
    let t = s.text;
    lemma_boundary_index(t, s.cursor_pos as int);
    let ci = char_index(t, s.cursor_pos as int);
    let j = line_end(t, ci);
    lemma_line_end(t, ci);
    lemma_byte_pos_mono(t, j, t.len() as int);
    assert(model_move_end(s, extend).cursor_pos == byte_pos(t, j));
}

/// Law: Home puts the cursor just after the last line feed before it, or at
/// the start of the text when none precedes: no line feed lies between the
/// new and the old cursor, and the character before the new cursor, if any,
/// is a line feed. The text is kept; the selection is extended from the old
/// cursor or dropped.
pub proof fn law_home_stops_after_line_feed(s: EditState, extend: bool)
    requires
        boundary(s.text, s.cursor_pos as int),
        byte_len(s.text) <= usize::MAX,
    ensures
        ({
            let t = s.text;
            let ci = char_index(t, s.cursor_pos as int);
            let r = model_move_home(s, extend);
            &&& r.text == t
            &&& r.attributes == s.attributes
            &&& exists|j: int|
                #![trigger byte_pos(t, j)]
                0 <= j <= ci && r.cursor_pos == byte_pos(t, j) && (forall|k: int|
                    j <= k < ci ==> t[k] != '\n') && (j == 0 || t[j - 1] == '\n')
            &&& !extend ==> r.selection_anchor is None
            &&& extend ==> r.selection_anchor == (if s.selection_anchor is None {
                Some(s.cursor_pos)
            } else {
                s.selection_anchor
            })
        }),
{
    let t = s.text;
    lemma_boundary_index(t, s.cursor_pos as int);
    let ci = char_index(t, s.cursor_pos as int);
    let j = line_start(t, ci);
    lemma_line_start(t, ci);
    lemma_byte_pos_mono(t, j, t.len() as int);
    assert(model_move_home(s, extend).cursor_pos == byte_pos(t, j));
}

// ── Words ────────────────────────────────────────────────────────────────────

proof fn lemma_char_index_range(s: Seq<char>, b: int)
    ensures
        0 <= char_index(s, b) <= s.len(),
    decreases s.len(),
{
    if !(b <= 0 || s.len() == 0) {
        lemma_char_index_range(s.drop_first(), b - vstd::utf8::encode_scalar(s[0] as u32).len());
    }
}

proof fn lemma_word_start(s: Seq<char>, c: int)
    requires
        0 <= c <= s.len(),
    ensures
        0 <= word_start(s, c) <= c,
        forall|k: int| word_start(s, c) <= k < c ==> !is_whitespace_char(s[k]),
        word_start(s, c) == 0 || is_whitespace_char(s[word_start(s, c) - 1]),
    decreases c,
{
    if c > 0 && !is_whitespace_char(s[c - 1]) {
        lemma_word_start(s, c - 1);
    }
}

proof fn lemma_word_end(s: Seq<char>, c: int)
    requires
        0 <= c <= s.len(),
    ensures
        c <= word_end(s, c) <= s.len(),
        forall|k: int| c <= k < word_end(s, c) ==> !is_whitespace_char(s[k]),
        word_end(s, c) == s.len() || is_whitespace_char(s[word_end(s, c)]),
    decreases s.len() - c,
{
    if c < s.len() && !is_whitespace_char(s[c]) {
        lemma_word_end(s, c + 1);
    }
}

/// Law: selecting the word at a position (capped at the text's end) selects
/// the characters around it up to white space (spaces, line feeds, tabs and
/// the other white-space characters) or an end of the text on each side:
/// the range holds no white space and is bounded on each side by white space
/// or an end of the text. When that range is empty, the cursor moves to the
/// position with nothing selected. The text is kept.
pub proof fn law_word_selection_stops_at_white_space(s: EditState, pos: usize)
    requires
        byte_len(s.text) <= usize::MAX,
    ensures
        ({
            let t = s.text;
            let p = if pos > byte_len(t) {
                byte_len(t) as int
            } else {
                pos as int
            };
            let ci = char_index(t, p);
            let r = model_select_word(s, pos);
            &&& r.text == t
            &&& r.attributes == s.attributes
            &&& exists|i: int, j: int|
                #![trigger byte_pos(t, i), byte_pos(t, j)]
                0 <= i <= ci <= j <= t.len() && (forall|k: int|
                    i <= k < j ==> !is_whitespace_char(t[k])) && (i == 0 || is_whitespace_char(
                    t[i - 1],
                )) && (j == t.len() || is_whitespace_char(t[j])) && (if i < j {
                    r.selection_anchor == Some(byte_pos(t, i) as usize) && r.cursor_pos
                        == byte_pos(t, j)
                } else {
                    r.selection_anchor is None && r.cursor_pos == p
                })
        }),
{
    let t = s.text;
    let p = if pos > byte_len(t) {
        byte_len(t) as int
    } else {
        pos as int
    };
    let ci = char_index(t, p);
    lemma_char_index_range(t, p);
    let i = word_start(t, ci);
    let j = word_end(t, ci);
    lemma_word_start(t, ci);
    lemma_word_end(t, ci);
    lemma_byte_pos_mono(t, i, j);
    lemma_byte_pos_mono(t, j, t.len() as int);
    assert(byte_pos(t, i) <= usize::MAX);
    assert(byte_pos(t, j) <= usize::MAX);
}

/// Law: a formatting command works on the selection when there is one, and
/// otherwise on the word around the cursor (capped at the text's end): a
/// range holding no white space, bounded on each side by white space or an
/// end of the text.
pub proof fn law_command_range_is_selection_or_word(s: EditState)
    requires
        byte_len(s.text) <= usize::MAX,
    ensures
        ({
            let t = s.text;
            let p = if s.cursor_pos > byte_len(t) {
                byte_len(t) as int
            } else {
                s.cursor_pos as int
            };
            let ci = char_index(t, p);
            let r = crate::text_commands::selection_or_word(s);
            &&& sel_range(s) is Some ==> r == sel_range(s).unwrap()
            &&& sel_range(s) is None ==> exists|i: int, j: int|
                #![trigger byte_pos(t, i), byte_pos(t, j)]
                0 <= i <= ci <= j <= t.len() && (forall|k: int|
                    i <= k < j ==> !is_whitespace_char(t[k])) && (i == 0 || is_whitespace_char(
                    t[i - 1],
                )) && (j == t.len() || is_whitespace_char(t[j])) && r.0 == byte_pos(t, i) && r.1
                    == byte_pos(t, j)
        }),
{
    let t = s.text;
    let p = if s.cursor_pos > byte_len(t) {
        byte_len(t) as int
    } else {
        s.cursor_pos as int
    };
    let ci = char_index(t, p);
    lemma_char_index_range(t, p);
    let i = word_start(t, ci);
    let j = word_end(t, ci);
    lemma_word_start(t, ci);
    lemma_word_end(t, ci);
    lemma_byte_pos_mono(t, i, j);
    lemma_byte_pos_mono(t, j, t.len() as int);
}

// ── Shortcut keys ────────────────────────────────────────────────────────────

/// Law: each Ctrl shortcut gives its own action and leaves the frame as it
/// is: Ctrl+B bold, Ctrl+I italic, Ctrl+U underline (either case of the
/// letter), Ctrl+V paste, Ctrl+Z undo (redo with Shift), Ctrl+Y redo;
/// Ctrl+C and Ctrl+X hand out the selected text, Ctrl+X also asking for a
/// cut. Without Ctrl, Escape ends editing and Up and Down ask for a move by
/// a line.
pub proof fn law_shortcuts_have_their_own_actions(s: EditState, shift: bool)
    ensures
        model_key(s, Key::Other(Some('b')), true, shift) == (s, KeyAction::FormatBold, None::<Seq<char>>),
        model_key(s, Key::Other(Some('B')), true, shift) == (s, KeyAction::FormatBold, None::<Seq<char>>),
        model_key(s, Key::Other(Some('i')), true, shift) == (s, KeyAction::FormatItalic, None::<Seq<char>>),
        model_key(s, Key::Other(Some('I')), true, shift) == (s, KeyAction::FormatItalic, None::<Seq<char>>),
        model_key(s, Key::Other(Some('u')), true, shift) == (s, KeyAction::FormatUnderline, None::<Seq<char>>),
        model_key(s, Key::Other(Some('U')), true, shift) == (s, KeyAction::FormatUnderline, None::<Seq<char>>),
        model_key(s, Key::Other(Some('v')), true, shift) == (s, KeyAction::RequestPaste, None::<Seq<char>>),
        model_key(s, Key::Other(Some('z')), true, false) == (s, KeyAction::Undo, None::<Seq<char>>),
        model_key(s, Key::Other(Some('z')), true, true) == (s, KeyAction::Redo, None::<Seq<char>>),
        model_key(s, Key::Other(Some('y')), true, shift) == (s, KeyAction::Redo, None::<Seq<char>>),
        model_key(s, Key::Other(Some('c')), true, shift) == (s, KeyAction::Handled, selected_text(s)),
        model_key(s, Key::Other(Some('x')), true, shift) == (s, KeyAction::RequestCut, selected_text(s)),
        model_key(s, Key::Escape, false, shift) == (s, KeyAction::ExitEdit, None::<Seq<char>>),
        model_key(s, Key::Up, false, shift) == (
            s,
            KeyAction::MoveVertical { up: true, extend: shift },
            None::<Seq<char>>,
        ),
        model_key(s, Key::Down, false, shift) == (
            s,
            KeyAction::MoveVertical { up: false, extend: shift },
            None::<Seq<char>>,
        ),
{
}

// ── The bounded history ──────────────────────────────────────────────────────

/// Law: a checkpoint taken while the history is not full keeps every earlier
/// checkpoint in order and adds the current state last; a checkpoint taken
/// while it is full drops only the oldest one, keeps the others in order and
/// adds the current state last. Either way the redo history is emptied and
/// the frame itself is left alone.
pub proof fn law_checkpoint_drops_only_the_oldest(m: BoxModel)
    requires
        differs_from_last(m.undo, m.state),
    ensures
        ({
            let n = model_push_history(m);
            let u = m.undo.len();
            &&& n.state == m.state
            &&& n.redo.len() == 0
            &&& u < crate::text_box::UNDO_LIMIT ==> {
                &&& n.undo.len() == u + 1
                &&& forall|k: int| 0 <= k < u ==> #[trigger] n.undo[k] == m.undo[k]
                &&& n.undo[u as int] == m.state
            }
            &&& u >= crate::text_box::UNDO_LIMIT ==> {
                &&& n.undo.len() == u
                &&& forall|k: int| 0 <= k < u - 1 ==> #[trigger] n.undo[k] == m.undo[k + 1]
                &&& n.undo[u - 1] == m.state
            }
        }),
{
}

// ── Effective formatting ─────────────────────────────────────────────────────

/// Span `i` is the last span of kind `k` that covers byte `p`.
pub open spec fn last_cover(attrs: Seq<TextAttribute>, k: u8, p: int, i: int) -> bool {
    &&& 0 <= i < attrs.len()
    &&& covers(attrs[i], p)
    &&& kind(attrs[i].value) == k
    &&& forall|j: int| i < j < attrs.len() ==> !(covers(attrs[j], p) && kind(attrs[j].value) == k)
}

proof fn lemma_value_at_last(attrs: Seq<TextAttribute>, k: u8, p: int)
    ensures
        forall|i: int| #[trigger] last_cover(attrs, k, p, i) ==> value_at(attrs, k, p) == Some(attrs[i].value),
        (forall|i: int| 0 <= i < attrs.len() ==> !(#[trigger] covers(attrs[i], p) && kind(attrs[i].value) == k))
            ==> value_at(attrs, k, p) is None,
        has_kind_at(attrs, k, p) == exists|i: int| 0 <= i < attrs.len() && #[trigger] covers(attrs[i], p) && kind(attrs[i].value) == k,
    decreases attrs.len(),
{
    if attrs.len() > 0 {
        let d = attrs.drop_last();
        lemma_value_at_last(d, k, p);
        assert forall|i: int| #[trigger] last_cover(attrs, k, p, i) implies value_at(attrs, k, p) == Some(attrs[i].value) by {
            if i < attrs.len() - 1 {
                assert(!(covers(attrs[attrs.len() - 1], p) && kind(attrs[attrs.len() - 1].value) == k));
                assert(last_cover(d, k, p, i));
            }
        }
        if forall|i: int| 0 <= i < attrs.len() ==> !(#[trigger] covers(attrs[i], p) && kind(attrs[i].value) == k) {
            assert forall|i: int| 0 <= i < d.len() implies !(#[trigger] covers(d[i], p) && kind(d[i].value) == k) by {
                assert(d[i] == attrs[i]);
            }
        }
    }
    if has_kind_at(attrs, k, p) {
        let i = choose|i: int|
            0 <= i < attrs.len() && #[trigger] attrs[i].start <= p < attrs[i].end && kind(attrs[i].value) == k;
        assert(covers(attrs[i], p));
    }
    if exists|i: int| 0 <= i < attrs.len() && #[trigger] covers(attrs[i], p) && kind(attrs[i].value) == k {
        let i = choose|i: int| 0 <= i < attrs.len() && #[trigger] covers(attrs[i], p) && kind(attrs[i].value) == k;
        assert(attrs[i].start <= p < attrs[i].end);
        assert(has_kind_at(attrs, k, p));
    }
}

proof fn lemma_some_last_cover(attrs: Seq<TextAttribute>, k: u8, p: int, i: int)
    requires
        0 <= i < attrs.len(),
        covers(attrs[i], p),
        kind(attrs[i].value) == k,
    ensures
        exists|j: int| #[trigger] last_cover(attrs, k, p, j),
    decreases attrs.len() - i,
{
    if !last_cover(attrs, k, p, i) {
        let j = choose|j: int| i < j < attrs.len() && covers(attrs[j], p) && kind(attrs[j].value) == k;
        lemma_some_last_cover(attrs, k, p, j);
    }
}

/// Law: the formatting in force at a position takes bold, italic, font
/// family and size from the last span of that kind covering the position;
/// only where no span of a kind covers it does the base font's setting
/// count. Underline and colours come from the spans alone.
pub proof fn law_spans_win_over_the_base_font(attrs: Seq<TextAttribute>, pos: usize, base: BaseFont)
    requires
        pos <= u32::MAX,
    ensures
        ({
            let e = effective_at(attrs, pos, base);
            let p = pos as int;
            &&& forall|i: int| #[trigger] last_cover(attrs, KIND_ITALIC, p, i) ==> e.italic == (attrs[i].value == AttrValue::Italic(true))
            &&& forall|i: int| #[trigger] last_cover(attrs, KIND_BOLD, p, i) ==> e.bold == (attrs[i].value == AttrValue::Bold(true))
            &&& forall|i: int| #[trigger] last_cover(attrs, KIND_FAMILY, p, i) ==> (attrs[i].value matches AttrValue::Family(f) && e.family == Some(f))
            &&& forall|i: int| #[trigger] last_cover(attrs, KIND_SIZE, p, i) ==> (attrs[i].value matches AttrValue::Size(z) && e.size_pt == Some(z))
            &&& !has_kind_at(attrs, KIND_ITALIC, p) ==> e.italic == base.italic
            &&& !has_kind_at(attrs, KIND_BOLD, p) ==> e.bold == base.bold
            &&& !has_kind_at(attrs, KIND_FAMILY, p) ==> e.family == base.family
            &&& !has_kind_at(attrs, KIND_SIZE, p) ==> e.size_pt == Some(base.size_pt)
            &&& e.underline == snapshot_at(attrs, p).underline
            &&& e.color == snapshot_at(attrs, p).color
            &&& e.bg_color == snapshot_at(attrs, p).bg_color
        }),
{
    let p = pos as int;
    assert(pos as u32 as int == p);
    lemma_value_at_last(attrs, KIND_ITALIC, p);
    lemma_value_at_last(attrs, KIND_BOLD, p);
    lemma_value_at_last(attrs, KIND_FAMILY, p);
    lemma_value_at_last(attrs, KIND_SIZE, p);
    let e = effective_at(attrs, pos, base);
    assert forall|i: int| #[trigger] last_cover(attrs, KIND_ITALIC, p, i) implies e.italic == (attrs[i].value == AttrValue::Italic(true)) by {
        assert(has_kind_at(attrs, KIND_ITALIC, p));
    }
    assert forall|i: int| #[trigger] last_cover(attrs, KIND_BOLD, p, i) implies e.bold == (attrs[i].value == AttrValue::Bold(true)) by {
        assert(has_kind_at(attrs, KIND_BOLD, p));
    }
    if !has_kind_at(attrs, KIND_FAMILY, p) {
        assert(value_at(attrs, KIND_FAMILY, p) is None);
    }
    if !has_kind_at(attrs, KIND_SIZE, p) {
        assert(value_at(attrs, KIND_SIZE, p) is None);
    }
}

// ── Moving by a character, deleting and typing ───────────────────────────────

proof fn lemma_prev_boundary_spec(s: Seq<char>, pos: int)
    requires
        pos > 0,
    ensures
        prev_boundary(s, pos) < pos,
        boundary(s, prev_boundary(s, pos)),
        forall|j: int| prev_boundary(s, pos) < j < pos ==> !boundary(s, j),
    decreases pos,
{
    if !boundary(s, pos - 1) {
        if pos - 1 > 0 {
            lemma_prev_boundary_spec(s, pos - 1);
        } else {
            lemma_boundary_at(s, 0);
            lemma_byte_pos_mono(s, 0, 0);
        }
    }
}

proof fn lemma_next_boundary_spec(s: Seq<char>, pos: int)
    requires
        0 <= pos < byte_len(s),
    ensures
        pos < next_boundary(s, pos),
        boundary(s, next_boundary(s, pos)),
        forall|j: int| pos < j < next_boundary(s, pos) ==> !boundary(s, j),
    decreases byte_len(s) - pos,
{
    if pos + 1 >= byte_len(s) {
        lemma_boundary_at(s, s.len() as int);
        lemma_byte_pos_mono(s, s.len() as int, s.len() as int);
    } else if !boundary(s, pos + 1) {
        lemma_next_boundary_spec(s, pos + 1);
    }
}

/// The byte positions of the characters just before and just after the
/// character index of a boundary.
proof fn lemma_neighbours(t: Seq<char>, b: int)
    requires
        boundary(t, b),
    ensures
        ({
            let ci = char_index(t, b);
            &&& 0 <= ci <= t.len()
            &&& b == byte_pos(t, ci)
            &&& 0 <= b <= byte_len(t)
            &&& (b > 0) == (ci > 0)
            &&& (b < byte_len(t)) == (ci < t.len())
            &&& b > 0 ==> prev_boundary(t, b) == byte_pos(t, ci - 1)
            &&& b < byte_len(t) ==> next_boundary(t, b) == byte_pos(t, ci + 1)
            &&& ci > 0 ==> byte_pos(t, ci - 1) < b
            &&& ci < t.len() ==> byte_pos(t, ci + 1) <= byte_len(t)
            &&& ci > 0 ==> char_index(t, byte_pos(t, ci - 1) as int) == ci - 1
            &&& ci < t.len() ==> char_index(t, byte_pos(t, ci + 1) as int) == ci + 1
        }),
{
    lemma_boundary_index(t, b);
    let ci = char_index(t, b);
    lemma_byte_pos_mono(t, 0, ci);
    lemma_byte_pos_mono(t, ci, t.len() as int);
    if ci > 0 {
        lemma_byte_pos_mono(t, ci - 1, ci);
    }
    if ci < t.len() {
        lemma_byte_pos_mono(t, ci + 1, t.len() as int);
    }
    if b > 0 {
        lemma_prev_boundary_spec(t, b);
        lemma_prev_boundary(t, ci, prev_boundary(t, b));
        lemma_boundary_at(t, ci - 1);
    }
    if b < byte_len(t) {
        lemma_next_boundary_spec(t, b);
        lemma_next_boundary(t, ci, next_boundary(t, b));
        lemma_boundary_at(t, ci + 1);
    }
}

/// Law: Left and Right move the cursor by exactly one character (not past
/// either end of the text) when the selection is extended or there is none;
/// without extending, a selection collapses to its start (Left) or its end
/// (Right) and is dropped; extending keeps the anchor, or anchors the
/// selection at the old cursor. The text is kept.
pub proof fn law_left_and_right_move_one_character(s: EditState, extend: bool)
    requires
        boundary(s.text, s.cursor_pos as int),
        byte_len(s.text) <= usize::MAX,
    ensures
        ({
            let t = s.text;
            let ci = char_index(t, s.cursor_pos as int);
            let l = model_move_left(s, extend);
            let r = model_move_right(s, extend);
            &&& l.text == t && r.text == t
            &&& (extend || sel_range(s) is None) ==> l.cursor_pos == (if ci > 0 {
                byte_pos(t, ci - 1)
            } else {
                0
            })
            &&& (extend || sel_range(s) is None) ==> r.cursor_pos == (if ci < t.len() {
                byte_pos(t, ci + 1)
            } else {
                byte_len(t)
            })
            &&& (!extend && sel_range(s) is Some) ==> l.cursor_pos == sel_range(s).unwrap().0
                && r.cursor_pos == sel_range(s).unwrap().1
            &&& !extend ==> l.selection_anchor is None && r.selection_anchor is None
            &&& extend ==> l.selection_anchor == r.selection_anchor && l.selection_anchor == (
            if s.selection_anchor is None {
                Some(s.cursor_pos)
            } else {
                s.selection_anchor
            })
        }),
{
    let t = s.text;
    let b = s.cursor_pos as int;
    lemma_neighbours(t, b);
    let ci = char_index(t, b);
    if ci > 0 {
        assert(b > 0);
        assert(prev_boundary(t, b) == byte_pos(t, ci - 1));
        assert(model_move_left(s, true).cursor_pos == byte_pos(t, ci - 1));
    }
    if ci < t.len() {
        assert(b < byte_len(t));
        assert(next_boundary(t, b) == byte_pos(t, ci + 1));
        assert(byte_pos(t, ci + 1) <= usize::MAX);
        assert(model_move_right(s, true).cursor_pos == byte_pos(t, ci + 1));
    } else {
        assert(b == byte_len(t));
    }
}

/// Law: with nothing selected, Backspace removes exactly the character
/// before the cursor and puts the cursor where that character started;
/// Delete removes exactly the character after the cursor and leaves the
/// cursor where it is; at the start (Backspace) or end (Delete) of the text
/// nothing changes.
pub proof fn law_backspace_and_delete_remove_one_character(s: EditState)
    requires
        boundary(s.text, s.cursor_pos as int),
        sel_range(s) is None,
    ensures
        ({
            let t = s.text;
            let ci = char_index(t, s.cursor_pos as int);
            let b = model_delete_backward(s);
            let d = model_delete_forward(s);
            &&& ci > 0 ==> b.text == t.take(ci - 1) + t.skip(ci) && b.cursor_pos == byte_pos(t, ci - 1)
            &&& ci == 0 ==> b == s
            &&& ci < t.len() ==> d.text == t.take(ci) + t.skip(ci + 1) && d.cursor_pos == s.cursor_pos
            &&& ci == t.len() ==> d == s
        }),
{
    lemma_neighbours(s.text, s.cursor_pos as int);
}

/// Law: with nothing selected, typing puts the typed characters at the
/// cursor, keeps the text on either side of it, and leaves the cursor after
/// them.
pub proof fn law_typing_inserts_at_the_cursor(s: EditState, ins: Seq<char>)
    requires
        boundary(s.text, s.cursor_pos as int),
        sel_range(s) is None,
        s.cursor_pos + byte_len(ins) <= usize::MAX,
    ensures
        ({
            let t = s.text;
            let ci = char_index(t, s.cursor_pos as int);
            let r = model_insert(s, ins);
            &&& r.text == t.take(ci) + ins + t.skip(ci)
            &&& r.cursor_pos == s.cursor_pos + byte_len(ins)
            &&& r.selection_anchor == s.selection_anchor
        }),
{
}

/// Law: without Ctrl, each key does its own edit: Left, Right, Home and End
/// move the cursor (extending the selection with Shift), Backspace and
/// Delete delete, Return and Enter type a line feed, a printable character
/// is typed, a control character is ignored; all of these leave nothing to
/// the caller. Ctrl+A selects the whole text, and a Ctrl letter without a
/// shortcut does nothing.
pub proof fn law_keys_do_their_own_edits(s: EditState, shift: bool, ch: char)
    ensures
        model_key(s, Key::Left, false, shift) == (model_move_left(s, shift), KeyAction::Handled, None::<Seq<char>>),
        model_key(s, Key::Right, false, shift) == (model_move_right(s, shift), KeyAction::Handled, None::<Seq<char>>),
        model_key(s, Key::Home, false, shift) == (model_move_home(s, shift), KeyAction::Handled, None::<Seq<char>>),
        model_key(s, Key::End, false, shift) == (model_move_end(s, shift), KeyAction::Handled, None::<Seq<char>>),
        model_key(s, Key::BackSpace, false, shift) == (model_delete_backward(s), KeyAction::Handled, None::<Seq<char>>),
        model_key(s, Key::Delete, false, shift) == (model_delete_forward(s), KeyAction::Handled, None::<Seq<char>>),
        model_key(s, Key::Return, false, shift) == (model_insert(s, seq!['\n']), KeyAction::Handled, None::<Seq<char>>),
        model_key(s, Key::KpEnter, false, shift) == (model_insert(s, seq!['\n']), KeyAction::Handled, None::<Seq<char>>),
        !is_control_char(ch) ==> model_key(s, Key::Other(Some(ch)), false, shift) == (model_insert(s, seq![ch]), KeyAction::Handled, None::<Seq<char>>),
        is_control_char(ch) ==> model_key(s, Key::Other(Some(ch)), false, shift) == (s, KeyAction::Handled, None::<Seq<char>>),
        byte_len(s.text) <= usize::MAX ==> ({
            let a = model_key(s, Key::Other(Some('a')), true, shift);
            &&& a.0.text == s.text
            &&& a.0.selection_anchor == Some(0usize)
            &&& a.0.cursor_pos == byte_len(s.text)
            &&& a.1 == KeyAction::Handled
        }),
        model_key(s, Key::Other(Some('q')), true, shift) == (s, KeyAction::Handled, None::<Seq<char>>),
{
}

// ── The formatting at a position ─────────────────────────────────────────────

/// Law: the formatting at a position is that of the last span of each kind
/// covering it; where no span of a kind covers it, that kind is off (bold,
/// italic, underline) or unset (family, size, colours).
pub proof fn law_formatting_comes_from_the_last_covering_span(attrs: Seq<TextAttribute>, p: int)
    ensures
        ({
            let g = snapshot_at(attrs, p);
            &&& forall|i: int| #[trigger] last_cover(attrs, KIND_BOLD, p, i) ==> g.bold == (attrs[i].value == AttrValue::Bold(true))
            &&& forall|i: int| #[trigger] last_cover(attrs, KIND_ITALIC, p, i) ==> g.italic == (attrs[i].value == AttrValue::Italic(true))
            &&& forall|i: int| #[trigger] last_cover(attrs, KIND_UNDERLINE, p, i) ==> g.underline == (attrs[i].value == AttrValue::Underline(true))
            &&& forall|i: int| #[trigger] last_cover(attrs, KIND_FAMILY, p, i) ==> (attrs[i].value matches AttrValue::Family(f) && g.family == Some(f))
            &&& forall|i: int| #[trigger] last_cover(attrs, KIND_SIZE, p, i) ==> (attrs[i].value matches AttrValue::Size(z) && g.size_pt == Some(z))
            &&& forall|i: int| #[trigger] last_cover(attrs, KIND_COLOR, p, i) ==> (attrs[i].value matches AttrValue::Color(c) && g.color == Some(c))
            &&& forall|i: int| #[trigger] last_cover(attrs, KIND_BG_COLOR, p, i) ==> (attrs[i].value matches AttrValue::BgColor(c) && g.bg_color == Some(c))
            &&& !has_kind_at(attrs, KIND_BOLD, p) ==> !g.bold
            &&& !has_kind_at(attrs, KIND_ITALIC, p) ==> !g.italic
            &&& !has_kind_at(attrs, KIND_UNDERLINE, p) ==> !g.underline
            &&& !has_kind_at(attrs, KIND_FAMILY, p) ==> g.family is None
            &&& !has_kind_at(attrs, KIND_SIZE, p) ==> g.size_pt is None
            &&& !has_kind_at(attrs, KIND_COLOR, p) ==> g.color is None
            &&& !has_kind_at(attrs, KIND_BG_COLOR, p) ==> g.bg_color is None
        }),
{
    lemma_value_at_last(attrs, KIND_BOLD, p);
    lemma_value_at_last(attrs, KIND_ITALIC, p);
    lemma_value_at_last(attrs, KIND_UNDERLINE, p);
    lemma_value_at_last(attrs, KIND_FAMILY, p);
    lemma_value_at_last(attrs, KIND_SIZE, p);
    lemma_value_at_last(attrs, KIND_COLOR, p);
    lemma_value_at_last(attrs, KIND_BG_COLOR, p);
}

} // verus!
