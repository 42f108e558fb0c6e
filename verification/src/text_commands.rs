//! Editing commands on the selected text frame: which keys change text,
//! starting and ending editing, and the formatting commands of the toolbar.
use vstd::prelude::*;
use crate::chain::box_by_id;
use crate::document::Document;
use crate::format::{applied, cleared, AttrValue};
use crate::reflow::{frame_visible_local_range, visible_range};
use crate::text_box::{
    clamp_len, sel_range, snapshot_at, with_state, word_range, EditState, Key, TextBox,
};
use crate::utf8_text::{boundary, byte_len, char_is_control, is_control_char, str_byte_len};

verus! {

/// The key changes the text: Backspace, Delete, Return or keypad Enter, or a
/// key that types a character other than a control character; never with
/// Ctrl held.
pub open spec fn modifies_text(key: Key, ctrl: bool) -> bool {
    !ctrl && match key {
        Key::BackSpace | Key::Delete | Key::Return | Key::KpEnter => true,
        Key::Other(Some(c)) => !is_control_char(c),
        _ => false,
    }
}

/// Whether the key, pressed while editing, changes the text (so that an undo
/// checkpoint is due first).
pub fn key_modifies_text(key: &Key, ctrl: bool) -> (r: bool)
    ensures
        r == modifies_text(*key, ctrl),
{
    if ctrl {
        return false;
    }
    match key {
        Key::BackSpace | Key::Delete | Key::Return | Key::KpEnter => true,
        Key::Other(Some(c)) => !char_is_control(*c),
        _ => false,
    }
}

impl TextBox {
    /// Starts editing: the cursor goes to the end of the text, with no
    /// selection and no scrolling.
    pub fn begin_editing(&mut self)
        ensures
            final(self).model() == with_state(
                old(self).model(),
                EditState {
                    cursor_pos: byte_len(old(self).text@) as usize,
                    selection_anchor: None,
                    scroll_y: 0,
                    ..old(self).state()
                },
            ),
    {
        self.cursor_pos = str_byte_len(self.text.as_str());
        self.selection_anchor = None;
        self.scroll_y = 0;
    }

    /// Stops editing: no selection and no scrolling.
    pub fn end_editing(&mut self)
        ensures
            final(self).model() == with_state(
                old(self).model(),
                EditState { selection_anchor: None, scroll_y: 0, ..old(self).state() },
            ),
    {
        self.selection_anchor = None;
        self.scroll_y = 0;
    }
}

/// The selection when it is not empty, otherwise the word around the cursor.
pub open spec fn selection_or_word(s: EditState) -> (usize, usize) {
    match sel_range(s) {
        Some(r) => r,
        None => word_range(s.text, clamp_len(s.text, s.cursor_pos)),
    }
}

/// The cursor, kept within the text, lies on a character boundary.
pub open spec fn cursor_ok(s: EditState) -> bool {
    boundary(s.text, clamp_len(s.text, s.cursor_pos))
}

/// The byte range a formatting command works on in the text frame `id`: the
/// selection or the word at the cursor while editing, the part of the text
/// the frame shows otherwise; `None` when `id` names no text frame.
pub open spec fn operation_range(pages: Seq<crate::document::PageModel>, id: Seq<char>, editing: bool) -> Option<(usize, usize)> {
    match box_by_id(pages, id) {
        Some(b) => if editing {
            Some(selection_or_word(b.state))
        } else {
            visible_range(pages, id)
        },
        None => None,
    }
}

/// The byte range a formatting command works on (see `operation_range`).
pub fn selected_text_operation_range(doc: &Document, id: &str, editing: bool) -> (r: Option<(usize, usize)>)
    requires
        editing ==> match box_by_id(doc.model().pages, id@) {
            Some(b) => cursor_ok(b.state),
            None => true,
        },
    ensures
        r == operation_range(doc.model().pages, id@, editing),
{
    match crate::chain::chain_frame_textbox(doc, id) {
        Some(tb) => if editing {
            Some(tb.selection_or_word_range())
        } else {
            frame_visible_local_range(doc, id)
        },
        None => None,
    }
}

/// A style that is either on or off.
#[derive(Clone, Copy, Debug, PartialEq, Eq, Structural)]
pub enum StyleFlag {
    Bold,
    Italic,
    Underline,
}

/// The span value that sets `flag` to `on`.
pub open spec fn flag_value(flag: StyleFlag, on: bool) -> AttrValue {
    match flag {
        StyleFlag::Bold => AttrValue::Bold(on),
        StyleFlag::Italic => AttrValue::Italic(on),
        StyleFlag::Underline => AttrValue::Underline(on),
    }
}

/// Whether `flag` is on at byte `p`.
pub open spec fn flag_at(attrs: Seq<crate::format::TextAttribute>, flag: StyleFlag, p: int) -> bool {
    let snap = snapshot_at(attrs, p);
    match flag {
        StyleFlag::Bold => snap.bold,
        StyleFlag::Italic => snap.italic,
        StyleFlag::Underline => snap.underline,
    }
}

/// The range that a style command changes, if any. While editing: nothing
/// when the style at the start of the selection (or at the cursor) is already
/// as asked, otherwise `range`, or the selection or word when there is no
/// `range`, if it is not empty. Outside editing: `range`, if it is given and
/// not empty.
pub open spec fn style_target(
    s: EditState,
    flag: StyleFlag,
    on: bool,
    range: Option<(usize, usize)>,
    editing: bool,
) -> Option<(usize, usize)> {
    if editing {
        let pos = match sel_range(s) {
            Some((a, _)) => a,
            None => s.cursor_pos,
        };
        if flag_at(s.attributes, flag, pos as u32 as int) == on {
            None
        } else {
            let (a, b) = match range {
                Some(r) => r,
                None => selection_or_word(s),
            };
            if a < b {
                Some((a, b))
            } else {
                None
            }
        }
    } else {
        match range {
            Some((a, b)) => if a < b {
                Some((a, b))
            } else {
                None
            },
            None => None,
        }
    }
}

/// Sets a style on or off over the range that `style_target` picks; returns
/// whether the change was made outside editing, in which case editing starts.
pub fn set_style_flag(
    tb: &mut TextBox,
    flag: StyleFlag,
    on: bool,
    range: Option<(usize, usize)>,
    editing: bool,
) -> (r: bool)
    requires
        editing && range is None ==> cursor_ok(old(tb).state()),
    ensures
        match style_target(old(tb).state(), flag, on, range, editing) {
            Some((a, b)) => final(tb).model() == with_state(
                old(tb).model(),
                EditState {
                    attributes: applied(old(tb).attributes@, a, b, flag_value(flag, on)),
                    ..old(tb).state()
                },
            ),
            None => final(tb).model() == old(tb).model(),
        },
        r == (!editing && style_target(old(tb).state(), flag, on, range, editing) is Some),
{
    let (a, b) = if editing {
        let pos = match tb.selection_range() {
            Some((s, _)) => s,
            None => tb.cursor_pos,
        };
        let snap = tb.get_attr_at(pos);
        let current = match flag {
            StyleFlag::Bold => snap.bold,
            StyleFlag::Italic => snap.italic,
            StyleFlag::Underline => snap.underline,
        };
        if current == on {
            return false;
        }
        match range {
            Some(r) => r,
            None => tb.selection_or_word_range(),
        }
    } else {
        match range {
            Some(r) => r,
            None => {
                return false;
            },
        }
    };
    if a >= b {
        return false;
    }
    let value = match flag {
        StyleFlag::Bold => AttrValue::Bold(on),
        StyleFlag::Italic => AttrValue::Italic(on),
        StyleFlag::Underline => AttrValue::Underline(on),
    };
    tb.apply_format(a, b, value);
    !editing
}

/// The range that clearing the formatting changes, if any: `range`, or the
/// selection or word while editing when there is no `range`, if it is not
/// empty.
pub open spec fn clear_target(s: EditState, range: Option<(usize, usize)>, editing: bool) -> Option<
    (usize, usize),
> {
    let picked = match range {
        Some(r) => Some(r),
        None => if editing {
            Some(selection_or_word(s))
        } else {
            None
        },
    };
    match picked {
        Some((a, b)) => if a < b {
            Some((a, b))
        } else {
            None
        },
        None => None,
    }
}

/// Clears all formatting over the range that `clear_target` picks; returns
/// whether the change was made outside editing, in which case editing starts.
pub fn clear_format_command(tb: &mut TextBox, range: Option<(usize, usize)>, editing: bool) -> (r: bool)
    requires
        editing && range is None ==> cursor_ok(old(tb).state()),
    ensures
        match clear_target(old(tb).state(), range, editing) {
            Some((a, b)) => final(tb).model() == with_state(
                old(tb).model(),
                EditState { attributes: cleared(old(tb).attributes@, a, b), ..old(tb).state() },
            ),
            None => final(tb).model() == old(tb).model(),
        },
        r == (!editing && clear_target(old(tb).state(), range, editing) is Some),
{
    let picked = match range {
        Some(r) => Some(r),
        None => if editing {
            Some(tb.selection_or_word_range())
        } else {
            None
        },
    };
    match picked {
        Some((a, b)) => {
            if a < b {
                tb.clear_format(a, b);
                !editing
            } else {
                false
            }
        },
        None => false,
    }
}

} // verus!
