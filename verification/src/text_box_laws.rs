//! What undo, redo and editing promise across calls.
use vstd::prelude::*;
use crate::format::{after_delete, after_insert, shifted_for_delete, shifted_for_insert, TextAttribute};
use crate::text_box::{
    differs_from_last, model_delete_backward, model_insert, model_push_history, model_redo,
    model_undo, sel_range, selected_text, BoxModel, EditState, UNDO_LIMIT, positions_ok,
};
use crate::utf8_text::{
    boundary, byte_len, byte_pos, char_index, cut, lemma_boundary_at, lemma_boundary_index,
    lemma_byte_pos_mono, lemma_encode_single, lemma_prev_boundary, lemma_spliced_positions,
    prev_boundary, spliced,
};
use vstd::utf8::encode_scalar;

verus! {

/// Undo followed by redo gives back the frame exactly as it was.
pub proof fn law_redo_undoes_undo(m: BoxModel)
    requires
        m.undo.len() > 0,
    ensures
        model_undo(m).1,
        model_redo(model_undo(m).0) == (m, true),
{
    let u = model_undo(m).0;
    assert(u.redo.last() == m.state);
    assert(u.redo.drop_last() =~= m.redo);
    assert(u.undo.push(u.state) =~= m.undo);
}

/// Redo followed by undo gives back the frame exactly as it was.
pub proof fn law_undo_undoes_redo(m: BoxModel)
    requires
        m.redo.len() > 0,
    ensures
        model_redo(m).1,
        model_undo(model_redo(m).0) == (m, true),
{
    let r = model_redo(m).0;
    assert(r.undo.last() == m.state);
    assert(r.undo.drop_last() =~= m.undo);
    assert(r.redo.push(r.state) =~= m.redo);
}

/// After a checkpoint is taken, any edits that leave the history alone are
/// undone by one undo, which returns exactly to the checkpointed state; a
/// checkpoint also empties the redo stack.
pub proof fn law_undo_returns_to_checkpoint(m: BoxModel, later: BoxModel)
    requires
        differs_from_last(m.undo, m.state),
        later.undo == model_push_history(m).undo,
    ensures
        model_push_history(m).redo.len() == 0,
        model_undo(later).1,
        model_undo(later).0.state == m.state,
{
}

/// Taking a checkpoint that matches the last one changes nothing.
pub proof fn law_repeated_checkpoint_is_ignored(m: BoxModel)
    requires
        !differs_from_last(m.undo, m.state),
    ensures
        model_push_history(m) == m,
{
}

/// The undo history never grows past its limit.
pub proof fn law_history_is_bounded(m: BoxModel)
    requires
        m.undo.len() <= UNDO_LIMIT,
    ensures
        model_push_history(m).undo.len() <= UNDO_LIMIT,
{
}

// ── Typing and deleting ──────────────────────────────────────────────────────

proof fn lemma_prev_boundary_spec(s: Seq<char>, pos: int)
    requires
        pos > 0,
    ensures
        prev_boundary(s, pos) < pos,
        boundary(s, prev_boundary(s, pos)),
        forall|j: int| prev_boundary(s, pos) < j < pos ==> !boundary(s, j),
    decreases pos,
{
    if !boundary(s, pos - 1) {
        if pos - 1 > 0 {
            lemma_prev_boundary_spec(s, pos - 1);
        } else {
            lemma_boundary_at(s, 0);
            lemma_byte_pos_mono(s, 0, 0);
        }
    }
}

/// Every attribute's range is ordered.
pub open spec fn ranges_ordered(attrs: Seq<TextAttribute>) -> bool {
    forall|i: int| 0 <= i < attrs.len() ==> #[trigger] attrs[i].start <= attrs[i].end
}

proof fn lemma_insert_then_delete_attrs(attrs: Seq<TextAttribute>, p: u32, m: u32)
    requires
        ranges_ordered(attrs),
        p + m <= u32::MAX,
        forall|i: int|
            0 <= i < attrs.len() ==> #[trigger] attrs[i].end + m <= u32::MAX,
    ensures
        after_delete(after_insert(attrs, p, m), p, m) == attrs,
    decreases attrs.len(),
{
    if attrs.len() > 0 {
        let pre = attrs.drop_last();
        assert forall|i: int| 0 <= i < pre.len() implies #[trigger] pre[i].start <= pre[i].end by {
            assert(pre[i] == attrs[i]);
        }
        assert forall|i: int| 0 <= i < pre.len() implies #[trigger] pre[i].end + m <= u32::MAX by {
            assert(pre[i] == attrs[i]);
        }
        lemma_insert_then_delete_attrs(pre, p, m);
        let ins = after_insert(attrs, p, m);
        assert(ins.drop_last() =~= after_insert(pre, p, m));
        let x = attrs.last();
        assert(x == attrs[attrs.len() - 1]);
        assert(ins.last() == shifted_for_insert(x, p, m));
        assert(shifted_for_delete(shifted_for_insert(x, p, m), p, m) == Some(x));
        assert(after_delete(ins, p, m) =~= after_delete(after_insert(pre, p, m), p, m) + seq![x]);
        assert(attrs =~= pre + seq![x]);
    }
}

/// Typing a character with nothing selected and then pressing Backspace
/// restores the text, the cursor and the formatting.
pub proof fn law_backspace_undoes_typing(s: EditState, ch: char)
    requires
        positions_ok(s),
        sel_range(s) is None,
        ranges_ordered(s.attributes),
        s.cursor_pos + encode_scalar(ch as u32).len() <= u32::MAX,
        forall|i: int|
            0 <= i < s.attributes.len() ==> #[trigger] s.attributes[i].end + encode_scalar(
                ch as u32,
            ).len() <= u32::MAX,
    ensures
        model_delete_backward(model_insert(s, seq![ch])).text == s.text,
        model_delete_backward(model_insert(s, seq![ch])).cursor_pos == s.cursor_pos,
        model_delete_backward(model_insert(s, seq![ch])).attributes == s.attributes,
{
    lemma_encode_single(ch);
    let l = encode_scalar(ch as u32).len();
    let t = s.text;
    let cur = s.cursor_pos as int;
    let s1 = model_insert(s, seq![ch]);
    lemma_spliced_positions(t, cur, seq![ch]);
    lemma_boundary_index(t, cur);
    let c = char_index(t, cur);
    let t1 = s1.text;
    assert(t1 == spliced(t, cur, seq![ch]));
    assert(byte_pos(t1, c + 1) == cur + l) by {
        lemma_boundary_index(t1, cur + l);
    }
    assert(byte_pos(t1, c) == cur) by {
        lemma_boundary_index(t1, cur);
    }
    lemma_byte_pos_mono(t1, 0, c + 1);
    lemma_prev_boundary_spec(t1, cur + l);
    lemma_prev_boundary(t1, c + 1, prev_boundary(t1, cur + l));
    lemma_insert_then_delete_attrs(s.attributes, cur as u32, l as u32);
    assert(cut(t1, cur, cur + l) =~= t);
    match s.selection_anchor {
        Some(a) => {
            assert(a == cur);
            assert(sel_range(s1) == Some((cur as usize, (cur + l) as usize)));
        },
        None => {},
    }
}

/// Selecting all selects the whole text.
pub proof fn law_select_all_selects_text(s: EditState)
    requires
        0 < byte_len(s.text) <= usize::MAX,
    ensures
        sel_range((EditState { selection_anchor: Some(0), cursor_pos: byte_len(s.text) as usize, ..s }))
            == Some((0usize, byte_len(s.text) as usize)),
{
}

} // verus!
