//! How much of a frame's text is drawn.
use vstd::prelude::*;
use crate::format::{slice_attrs_for_range, slice_seq};
use crate::reflow::{lemma_cut_at, prefix_bytes};
use crate::text_box::{BoxModel, EditState, TextBox};
use crate::utf8_text::{boundary, byte_len, str_byte_len, substring};

verus! {

/// How far past the cursor an edited frame draws beyond the text it shows.
pub const EDIT_LOOKAHEAD: usize = 200;

/// The largest boundary of `s` between `lo` and `x`; `lo` when there is none.
pub open spec fn boundary_down_to(s: Seq<char>, x: int, lo: int) -> int
    decreases x - lo,
{
    if x <= lo {
        x
    } else if boundary(s, x) {
        x
    } else {
        boundary_down_to(s, x - 1, lo)
    }
}

/// How many bytes of a frame's text are drawn. A frame draws its whole text
/// unless it shows less of it (`visible`, capped at the text's length); then
/// it draws what it shows, except that while it is being edited it draws on
/// to 200 bytes past the cursor (within the text), stepping back to a
/// character boundary but not below what it shows.
pub open spec fn drawn_len(text: Seq<char>, cursor: usize, visible: Option<usize>, editing: bool) -> int {
    let len = byte_len(text) as int;
    let v = match visible {
        Some(v) => if v < len {
            v as int
        } else {
            len
        },
        None => len,
    };
    if v < len {
        if editing {
            let ahead = if cursor as int + EDIT_LOOKAHEAD > usize::MAX {
                usize::MAX as int
            } else {
                cursor + EDIT_LOOKAHEAD
            };
            let capped = if ahead < len {
                ahead
            } else {
                len
            };
            let raw = if capped > v {
                capped
            } else {
                v
            };
            boundary_down_to(text, raw, v)
        } else {
            v
        }
    } else {
        len
    }
}

/// How many bytes of the frame's text are drawn (see `drawn_len`).
pub fn display_len(tb: &TextBox, visible: Option<usize>, editing: bool) -> (r: usize)
    ensures
        r == drawn_len(tb.text@, tb.cursor_pos, visible, editing),
{
    let len = str_byte_len(tb.text.as_str());
    let v = match visible {
        Some(v) => if v < len {
            v
        } else {
            len
        },
        None => len,
    };
    if v >= len {
        return len;
    }
    if !editing {
        return v;
    }
    let ahead = tb.cursor_pos.saturating_add(EDIT_LOOKAHEAD);
    let capped = if ahead < len {
        ahead
    } else {
        len
    };
    let mut d = if capped > v {
        capped
    } else {
        v
    };
    while d > v && !tb.text.as_str().is_char_boundary(d)
        invariant
            v <= d,
            boundary_down_to(tb.text@, d as int, v as int) == drawn_len(
                tb.text@,
                tb.cursor_pos,
                visible,
                editing,
            ),
        decreases d,
    {
        d = d - 1;
    }
    d
}

impl TextBox {
    /// A copy holding only the first `len` bytes of the text, with the spans
    /// cut to them.
    pub fn truncated_copy(&self, len: usize) -> (r: TextBox)
        requires
            boundary(self.text@, len as int),
            len <= u32::MAX,
        ensures
            r.model() == (BoxModel {
                state: EditState {
                    text: prefix_bytes(self.text@, len as int),
                    attributes: slice_seq(self.attributes@, 0, len as u32),
                    ..self.state()
                },
                ..self.model()
            }),
    {
        proof {
            lemma_cut_at(self.text@, len as int);
        }
        let mut copy = self.clone_box();
        copy.text = substring(self.text.as_str(), 0, len);
        copy.attributes = slice_attrs_for_range(&self.attributes, 0, len);
        copy
    }
}

} // verus!
