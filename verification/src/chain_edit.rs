//! Cutting chains apart: taking one frame out of its chain, and splitting a
//! chain in two at the cursor. Each is planned first, from the document as it
//! is, and then carried out; the chains it leaves behind are reflowed after.
use vstd::prelude::*;
use crate::chain::{
    box_by_id, chain_frame_textbox, chain_root, collect_chain, find_chain_root, ids_view,
    lemma_chain_of, lemma_chain_root, linked_upto, set_chain_frame_content, set_chain_links,
    update_box, with_content, with_pages,
};
use crate::document::{Document, PageModel};
use crate::format::{clone_attrs, slice_attrs_for_range, slice_seq, TextAttribute};
use crate::reflow::{chain_position, lemma_cut_at, prefix_bytes, reflow_chain_of, suffix_bytes};
use crate::text_box::BoxModel;
use crate::utf8_text::{boundary, byte_len, char_index, same_text, str_byte_len, substring};

verus! {

/// The frame's position in the chain, and the chain's first and the frame's
/// own text frames, when the frame is in the chain read from its first frame.
pub open spec fn placed_in_chain(pages: Seq<PageModel>, id: Seq<char>) -> bool {
    let c = reflow_chain_of(pages, id);
    &&& c.contains(id)
    &&& box_by_id(pages, c[0]) is Some
    &&& box_by_id(pages, id) is Some
}

fn position_of(chain: &Vec<String>, id: &str) -> (r: Option<usize>)
    requires
        ids_view(chain@).no_duplicates(),
    ensures
        match r {
            Some(i) => ids_view(chain@).contains(id@) && i == chain_position(ids_view(chain@), id@)
                && i < chain@.len(),
            None => !ids_view(chain@).contains(id@),
        },
{
    let ghost cv = ids_view(chain@);
    let n = chain.len();
    let mut i: usize = 0;
    while i < n
        invariant
            n == chain@.len(),
            cv == ids_view(chain@),
            cv.no_duplicates(),
            i <= n,
            forall|j: int| 0 <= j < i ==> cv[j] != id@,
        decreases n - i,
    {
        assert(cv[i as int] == chain@[i as int]@);
        if same_text(chain[i].as_str(), id) {
            proof {
                assert(cv.contains(id@));
                let p = chain_position(cv, id@);
                assert(cv[p] == id@);
            }
            return Some(i);
        }
        i = i + 1;
    }
    None
}

/// `b` if it is smaller than `a`, else `a`.
pub open spec fn at_most(a: int, b: int) -> int {
    if b < a {
        b
    } else {
        a
    }
}

// ── Taking a frame out of its chain ──────────────────────────────────────────

/// How a frame is taken out of its chain: the chain, the frame's position in
/// it, the chain's whole text and spans, and the byte range of that text the
/// frame keeps.
pub struct UnlinkPlan {
    chain: Vec<String>,
    idx: usize,
    text: String,
    attributes: Vec<TextAttribute>,
    start: usize,
    end: usize,
}

pub struct CutModel {
    pub chain: Seq<Seq<char>>,
    pub idx: int,
    pub text: Seq<char>,
    pub attributes: Seq<TextAttribute>,
    pub start: int,
    pub end: int,
}

impl View for UnlinkPlan {
    type V = CutModel;

    closed spec fn view(&self) -> CutModel {
        CutModel {
            chain: ids_view(self.chain@),
            idx: self.idx as int,
            text: self.text@,
            attributes: self.attributes@,
            start: self.start as int,
            end: self.end as int,
        }
    }
}

impl CutModel {
    /// The frames before the cut frame.
    pub open spec fn left(self) -> Seq<Seq<char>> {
        self.chain.take(self.idx)
    }

    /// The frames after the cut frame.
    pub open spec fn right(self) -> Seq<Seq<char>> {
        self.chain.skip(self.idx + 1)
    }

    /// The cut falls on characters, in order, and span positions fit in `u32`.
    pub open spec fn clean(self) -> bool {
        &&& self.start <= self.end
        &&& boundary(self.text, self.start)
        &&& boundary(self.text, self.end)
        &&& byte_len(self.text) <= u32::MAX
    }
}

/// How the frame `id` would be taken out of its chain: it keeps the chain's
/// text from its own offset to the next frame's offset (each capped at the
/// text's end); the frames before it keep the text before, those after it the
/// text after. `None` when the frame is not in a chain of two frames or more
/// read from its first frame, or that first frame or the frame itself is no
/// text frame.
pub open spec fn unlink_plan(pages: Seq<PageModel>, id: Seq<char>) -> Option<CutModel> {
    let c = reflow_chain_of(pages, id);
    if !placed_in_chain(pages, id) || c.len() < 2 {
        None
    } else {
        let rb = box_by_id(pages, c[0]).unwrap();
        let cb = box_by_id(pages, id).unwrap();
        let len = byte_len(rb.state.text) as int;
        let idx = chain_position(c, id);
        let end = if idx + 1 < c.len() {
            match box_by_id(pages, c[idx + 1]) {
                Some(nb) => at_most(len, nb.frame.text_offset as int),
                None => len,
            }
        } else {
            len
        };
        Some(
            CutModel {
                chain: c,
                idx,
                text: rb.state.text,
                attributes: rb.state.attributes,
                start: at_most(len, cb.frame.text_offset as int),
                end,
            },
        )
    }
}

impl UnlinkPlan {
    /// Plans taking the frame `id` out of its chain; reads the document only.
    pub fn plan(doc: &Document, id: &str) -> (r: Option<UnlinkPlan>)
        ensures
            match r {
                Some(p) => unlink_plan(doc.model().pages, id@) == Some(p@) && p@.chain.no_duplicates()
                    && 0 <= p@.idx < p@.chain.len(),
                None => unlink_plan(doc.model().pages, id@) is None,
            },
    {
        let ghost pages = doc.model().pages;
        let root = find_chain_root(doc, id);
        let chain = collect_chain(doc, root.as_str());
        let ghost cv = ids_view(chain@);
        proof {
            lemma_chain_root(pages, id@, root@);
            lemma_chain_of(pages, root@, cv);
            assert(cv[0] == root@);
        }
        let idx = match position_of(&chain, id) {
            Some(i) => i,
            None => {
                return None;
            },
        };
        if chain.len() < 2 {
            return None;
        }
        let root_tb = match chain_frame_textbox(doc, root.as_str()) {
            Some(tb) => tb,
            None => {
                return None;
            },
        };
        let current_tb = match chain_frame_textbox(doc, id) {
            Some(tb) => tb,
            None => {
                return None;
            },
        };
        let len = str_byte_len(root_tb.text.as_str());
        let start = if current_tb.text_offset < len {
            current_tb.text_offset
        } else {
            len
        };
        let end = if idx < chain.len() - 1 {
            assert(cv[idx + 1] == chain@[idx + 1]@);
            match chain_frame_textbox(doc, chain[idx + 1].as_str()) {
                Some(nb) => if nb.text_offset < len {
                    nb.text_offset
                } else {
                    len
                },
                None => len,
            }
        } else {
            len
        };
        Some(
            UnlinkPlan {
                chain,
                idx,
                text: root_tb.text.clone(),
                attributes: clone_attrs(&root_tb.attributes),
                start,
                end,
            },
        )
    }

    /// The cut falls on characters, in order, and span positions fit in `u32`.
    pub fn is_clean(&self) -> (r: bool)
        ensures
            r == self@.clean(),
    {
        let len = str_byte_len(self.text.as_str());
        self.start <= self.end && self.text.as_str().is_char_boundary(self.start)
            && self.text.as_str().is_char_boundary(self.end) && len <= 0xffff_ffff
    }

    /// The first step of taking the frame out: the frames before it become a
    /// chain of their own, whose first frame gets the text before the cut.
    /// Returns that first frame when the chain has two frames or more, so
    /// that it can be reflowed before the next step.
    pub fn unlink_left(&self, doc: &mut Document) -> (r: Option<String>)
        requires
            self@.clean(),
            0 <= self@.idx < self@.chain.len(),
        ensures
            ({
                let m = self@;
                let left = m.left();
                let pages = old(doc).model().pages;
                if left.len() == 0 {
                    final(doc).model() == old(doc).model() && r is None
                } else {
                    &&& final(doc).model() == with_pages(
                        old(doc).model(),
                        update_box(
                            linked_upto(pages, left, left.len() as int),
                            left[0],
                            |b: BoxModel|
                                with_content(
                                    b,
                                    prefix_bytes(m.text, m.start),
                                    slice_seq(m.attributes, 0, m.start as u32),
                                    0,
                                ),
                        ),
                    )
                    &&& match r {
                        Some(x) => left.len() >= 2 && x@ == left[0],
                        None => left.len() < 2,
                    }
                }
            }),
    {
        let ghost m = self@;
        if self.idx == 0 {
            return None;
        }
        proof {
            lemma_cut_at(m.text, m.start);
        }
        let left = self.chain.as_slice().split_at(self.idx).0;
        assert(ids_view(left@) =~= m.left());
        set_chain_links(doc, left);
        let text = substring(self.text.as_str(), 0, self.start);
        let attrs = slice_attrs_for_range(&self.attributes, 0, self.start);
        assert(ids_view(left@)[0] == left@[0]@);
        set_chain_frame_content(doc, left[0].as_str(), text, attrs, 0);
        if self.idx >= 2 {
            Some(left[0].clone())
        } else {
            None
        }
    }

    /// The second step of taking the frame out: it stands alone with the
    /// text between the cut points, and the frames after it become a chain of
    /// their own whose first frame gets the text after the cut. Returns that
    /// first frame when the chain has two frames or more, so that it can be
    /// reflowed.
    pub fn unlink_rest(&self, doc: &mut Document) -> (r: Option<String>)
        requires
            self@.clean(),
            0 <= self@.idx < self@.chain.len(),
        ensures
            ({
                let m = self@;
                let id = m.chain[m.idx];
                let right = m.right();
                let p1 = update_box(
                    linked_upto(old(doc).model().pages, seq![id], 1),
                    id,
                    |b: BoxModel|
                        with_content(
                            b,
                            m.text.subrange(char_index(m.text, m.start), char_index(m.text, m.end)),
                            slice_seq(m.attributes, m.start as u32, m.end as u32),
                            0,
                        ),
                );
                if right.len() == 0 {
                    final(doc).model() == with_pages(old(doc).model(), p1) && r is None
                } else {
                    &&& final(doc).model() == with_pages(
                        old(doc).model(),
                        update_box(
                            linked_upto(p1, right, right.len() as int),
                            right[0],
                            |b: BoxModel|
                                with_content(
                                    b,
                                    suffix_bytes(m.text, m.end),
                                    slice_seq(m.attributes, m.end as u32, byte_len(m.text) as u32),
                                    0,
                                ),
                        ),
                    )
                    &&& match r {
                        Some(x) => right.len() >= 2 && x@ == right[0],
                        None => right.len() < 2,
                    }
                }
            }),
    {
        let ghost m = self@;
        proof {
            lemma_cut_at(m.text, m.start);
            lemma_cut_at(m.text, m.end);
        }
        let id = self.chain[self.idx].clone();
        let one = vec![id.clone()];
        assert(ids_view(one@) =~= seq![m.chain[m.idx]]);
        set_chain_links(doc, one.as_slice());
        let len = str_byte_len(self.text.as_str());
        let middle = substring(self.text.as_str(), self.start, self.end);
        let middle_attrs = slice_attrs_for_range(&self.attributes, self.start, self.end);
        set_chain_frame_content(doc, id.as_str(), middle, middle_attrs, 0);
        let n = self.chain.len();
        assert(self.chain@.len() == m.chain.len());
        if self.idx < n - 1 {
            let right = self.chain.as_slice().split_at(self.idx + 1).1;
            assert(ids_view(right@) =~= m.right());
            set_chain_links(doc, right);
            let tail = substring(self.text.as_str(), self.end, len);
            let tail_attrs = slice_attrs_for_range(&self.attributes, self.end, len);
            assert(ids_view(right@)[0] == right@[0]@);
            set_chain_frame_content(doc, right[0].as_str(), tail, tail_attrs, 0);
            if right.len() >= 2 {
                Some(right[0].clone())
            } else {
                None
            }
        } else {
            assert(m.right().len() == 0);
            None
        }
    }
}

/// Law: taking a frame out of its chain loses no text: the text before the
/// cut, the frame's part and the text after it make up the chain's text.
pub proof fn law_unlink_keeps_text(m: CutModel)
    requires
        m.clean(),
    ensures
        prefix_bytes(m.text, m.start) + m.text.subrange(
            char_index(m.text, m.start),
            char_index(m.text, m.end),
        ) + suffix_bytes(m.text, m.end) == m.text,
{
    lemma_cut_at(m.text, m.start);
    lemma_cut_at(m.text, m.end);
    crate::utf8_text::lemma_boundary_index(m.text, m.start);
    crate::utf8_text::lemma_boundary_index(m.text, m.end);
    if char_index(m.text, m.start) > char_index(m.text, m.end) {
        crate::utf8_text::lemma_byte_pos_mono(m.text, char_index(m.text, m.end), char_index(m.text, m.start));
    }
    assert(prefix_bytes(m.text, m.start) + m.text.subrange(
        char_index(m.text, m.start),
        char_index(m.text, m.end),
    ) + suffix_bytes(m.text, m.end) =~= m.text);
}

// ── Splitting a chain at the cursor ──────────────────────────────────────────

/// How a chain is split in two after the frame being edited: the chain, the
/// frame's position in it, the chain's whole text and spans, and the byte
/// position of the split.
pub struct SplitPlan {
    chain: Vec<String>,
    idx: usize,
    text: String,
    attributes: Vec<TextAttribute>,
    split: usize,
}

pub struct SplitModel {
    pub chain: Seq<Seq<char>>,
    pub idx: int,
    pub text: Seq<char>,
    pub attributes: Seq<TextAttribute>,
    pub split: int,
}

impl View for SplitPlan {
    type V = SplitModel;

    closed spec fn view(&self) -> SplitModel {
        SplitModel {
            chain: ids_view(self.chain@),
            idx: self.idx as int,
            text: self.text@,
            attributes: self.attributes@,
            split: self.split as int,
        }
    }
}

impl SplitModel {
    /// The frames up to and including the edited one.
    pub open spec fn first_part(self) -> Seq<Seq<char>> {
        self.chain.take(self.idx + 1)
    }

    /// The frames after the edited one.
    pub open spec fn second_part(self) -> Seq<Seq<char>> {
        self.chain.skip(self.idx + 1)
    }

    /// The split falls on a character and span positions fit in `u32`.
    pub open spec fn clean(self) -> bool {
        &&& boundary(self.text, self.split)
        &&& byte_len(self.text) <= u32::MAX
    }
}

/// How the chain of the frame `id` would be split after that frame: at the
/// frame's cursor (capped at the frame's text), counted from the frame's
/// offset and capped at the chain's text. `None` when the frame is not in a
/// chain read from its first frame, is its last frame, or that first frame
/// or the frame itself is no text frame.
pub open spec fn split_plan(pages: Seq<PageModel>, id: Seq<char>) -> Option<SplitModel> {
    let c = reflow_chain_of(pages, id);
    if !placed_in_chain(pages, id) || chain_position(c, id) + 1 >= c.len() {
        None
    } else {
        let rb = box_by_id(pages, c[0]).unwrap();
        let cb = box_by_id(pages, id).unwrap();
        let cursor = at_most(byte_len(cb.state.text) as int, cb.state.cursor_pos as int);
        Some(
            SplitModel {
                chain: c,
                idx: chain_position(c, id),
                text: rb.state.text,
                attributes: rb.state.attributes,
                split: at_most(byte_len(rb.state.text) as int, cb.frame.text_offset + cursor),
            },
        )
    }
}

impl SplitPlan {
    /// Plans splitting the chain of the frame `id` after it; reads the
    /// document only.
    pub fn plan(doc: &Document, id: &str) -> (r: Option<SplitPlan>)
        ensures
            match r {
                Some(p) => split_plan(doc.model().pages, id@) == Some(p@) && p@.chain.no_duplicates()
                    && 0 <= p@.idx && p@.idx + 1 < p@.chain.len(),
                None => split_plan(doc.model().pages, id@) is None,
            },
    {
        let ghost pages = doc.model().pages;
        let root = find_chain_root(doc, id);
        let chain = collect_chain(doc, root.as_str());
        let ghost cv = ids_view(chain@);
        proof {
            lemma_chain_root(pages, id@, root@);
            lemma_chain_of(pages, root@, cv);
            assert(cv[0] == root@);
        }
        let idx = match position_of(&chain, id) {
            Some(i) => i,
            None => {
                return None;
            },
        };
        if idx >= chain.len() - 1 {
            return None;
        }
        let root_tb = match chain_frame_textbox(doc, root.as_str()) {
            Some(tb) => tb,
            None => {
                return None;
            },
        };
        let current_tb = match chain_frame_textbox(doc, id) {
            Some(tb) => tb,
            None => {
                return None;
            },
        };
        let len = str_byte_len(root_tb.text.as_str());
        let own = str_byte_len(current_tb.text.as_str());
        let cursor = if current_tb.cursor_pos < own {
            current_tb.cursor_pos
        } else {
            own
        };
        let split = if current_tb.text_offset < len && cursor < len - current_tb.text_offset {
            current_tb.text_offset + cursor
        } else {
            len
        };
        Some(
            SplitPlan {
                chain,
                idx,
                text: root_tb.text.clone(),
                attributes: clone_attrs(&root_tb.attributes),
                split,
            },
        )
    }

    /// The split falls on a character and span positions fit in `u32`.
    pub fn is_clean(&self) -> (r: bool)
        ensures
            r == self@.clean(),
    {
        self.text.as_str().is_char_boundary(self.split) && str_byte_len(self.text.as_str())
            <= 0xffff_ffff
    }

    /// Splits the chain: the frames up to the edited one and those after it
    /// become two chains; the first frame of the first gets the text before
    /// the split, the first frame of the second the text after it. Returns the
    /// first frame of each chain that has two frames or more, to be reflowed.
    pub fn apply(&self, doc: &mut Document) -> (r: (Option<String>, Option<String>))
        requires
            self@.clean(),
            0 <= self@.idx,
            self@.idx + 1 < self@.chain.len(),
        ensures
            ({
                let m = self@;
                let a = m.first_part();
                let b = m.second_part();
                let p1 = linked_upto(linked_upto(old(doc).model().pages, a, a.len() as int), b, b.len() as int);
                let p2 = update_box(
                    p1,
                    a[0],
                    |x: BoxModel|
                        with_content(
                            x,
                            prefix_bytes(m.text, m.split),
                            slice_seq(m.attributes, 0, m.split as u32),
                            0,
                        ),
                );
                &&& final(doc).model() == with_pages(
                    old(doc).model(),
                    update_box(
                        p2,
                        b[0],
                        |x: BoxModel|
                            with_content(
                                x,
                                suffix_bytes(m.text, m.split),
                                slice_seq(m.attributes, m.split as u32, byte_len(m.text) as u32),
                                0,
                            ),
                    ),
                )
                &&& match r.0 {
                    Some(x) => a.len() > 1 && x@ == a[0],
                    None => a.len() <= 1,
                }
                &&& match r.1 {
                    Some(x) => b.len() > 1 && x@ == b[0],
                    None => b.len() <= 1,
                }
            }),
    {
        let ghost m = self@;
        proof {
            lemma_cut_at(m.text, m.split);
        }
        let n = self.chain.len();
        assert(self.chain@.len() == m.chain.len());
        assert(self.idx < n);
        let (first, second) = self.chain.as_slice().split_at(self.idx + 1);
        assert(ids_view(first@) =~= m.first_part());
        assert(ids_view(second@) =~= m.second_part());
        set_chain_links(doc, first);
        set_chain_links(doc, second);
        let len = str_byte_len(self.text.as_str());
        let head = substring(self.text.as_str(), 0, self.split);
        let head_attrs = slice_attrs_for_range(&self.attributes, 0, self.split);
        let tail = substring(self.text.as_str(), self.split, len);
        let tail_attrs = slice_attrs_for_range(&self.attributes, self.split, len);
        assert(ids_view(first@)[0] == first@[0]@);
        assert(ids_view(second@)[0] == second@[0]@);
        set_chain_frame_content(doc, first[0].as_str(), head, head_attrs, 0);
        set_chain_frame_content(doc, second[0].as_str(), tail, tail_attrs, 0);
        let r1 = if first.len() > 1 {
            Some(first[0].clone())
        } else {
            None
        };
        let r2 = if second.len() > 1 {
            Some(second[0].clone())
        } else {
            None
        };
        (r1, r2)
    }
}

/// Law: splitting a chain loses no text: the text before the split and the
/// text after it make up the chain's text.
pub proof fn law_split_keeps_text(m: SplitModel)
    requires
        m.clean(),
    ensures
        prefix_bytes(m.text, m.split) + suffix_bytes(m.text, m.split) == m.text,
{
    lemma_cut_at(m.text, m.split);
    assert(prefix_bytes(m.text, m.split) + suffix_bytes(m.text, m.split) =~= m.text);
}

} // verus!
