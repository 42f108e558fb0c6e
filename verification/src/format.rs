//! Formatted spans over byte ranges of a text, and how editing moves them.
use vstd::prelude::*;

verus! {

/// One formatting property of a span.
#[derive(Debug, Clone)]
pub enum AttrValue {
    Family(String),
    /// Font size in points, held as the bit pattern of its IEEE-754 double
    /// (`f64::to_bits`).
    Size(u64),
    Bold(bool),
    Italic(bool),
    Underline(bool),
    /// RGB foreground color, 0–255 per channel.
    Color([u8; 3]),
    /// RGB background color, 0–255 per channel.
    BgColor([u8; 3]),
}

/// A formatting property applied to the byte range `[start, end)`.
#[derive(Debug, Clone)]
pub struct TextAttribute {
    pub start: u32,
    pub end: u32,
    pub value: AttrValue,
}

pub const KIND_FAMILY: u8 = 0;
pub const KIND_SIZE: u8 = 1;
pub const KIND_BOLD: u8 = 2;
pub const KIND_ITALIC: u8 = 3;
pub const KIND_UNDERLINE: u8 = 4;
pub const KIND_COLOR: u8 = 5;
pub const KIND_BG_COLOR: u8 = 6;

/// Which property a value sets; two values of the same kind replace each other.
pub open spec fn kind(v: AttrValue) -> u8 {
    match v {
        AttrValue::Family(_) => KIND_FAMILY,
        AttrValue::Size(_) => KIND_SIZE,
        AttrValue::Bold(_) => KIND_BOLD,
        AttrValue::Italic(_) => KIND_ITALIC,
        AttrValue::Underline(_) => KIND_UNDERLINE,
        AttrValue::Color(_) => KIND_COLOR,
        AttrValue::BgColor(_) => KIND_BG_COLOR,
    }
}

impl AttrValue {
    pub fn kind_of(&self) -> (r: u8)
        ensures
            r == kind(*self),
    {
        match self {
            AttrValue::Family(_) => KIND_FAMILY,
            AttrValue::Size(_) => KIND_SIZE,
            AttrValue::Bold(_) => KIND_BOLD,
            AttrValue::Italic(_) => KIND_ITALIC,
            AttrValue::Underline(_) => KIND_UNDERLINE,
            AttrValue::Color(_) => KIND_COLOR,
            AttrValue::BgColor(_) => KIND_BG_COLOR,
        }
    }

    /// An equal copy of the value.
    pub fn clone_value(&self) -> (r: Self)
        ensures
            r == *self,
    {
        match self {
            AttrValue::Family(f) => AttrValue::Family(f.clone()),
            AttrValue::Size(s) => AttrValue::Size(*s),
            AttrValue::Bold(b) => AttrValue::Bold(*b),
            AttrValue::Italic(b) => AttrValue::Italic(*b),
            AttrValue::Underline(b) => AttrValue::Underline(*b),
            AttrValue::Color(c) => AttrValue::Color(*c),
            AttrValue::BgColor(c) => AttrValue::BgColor(*c),
        }
    }
}

impl TextAttribute {
    /// An equal copy of the attribute.
    pub fn clone_attr(&self) -> (r: Self)
        ensures
            r == *self,
    {
        TextAttribute { start: self.start, end: self.end, value: self.value.clone_value() }
    }
}

/// Two values set the same formatting: the same kind with the same value,
/// font families and colours compared by their contents.
pub open spec fn same_value(a: AttrValue, b: AttrValue) -> bool {
    match (a, b) {
        (AttrValue::Family(x), AttrValue::Family(y)) => x@ == y@,
        (AttrValue::Color(x), AttrValue::Color(y)) => x@ == y@,
        (AttrValue::BgColor(x), AttrValue::BgColor(y)) => x@ == y@,
        (AttrValue::Family(_), _) => false,
        (AttrValue::Color(_), _) => false,
        (AttrValue::BgColor(_), _) => false,
        _ => a == b,
    }
}

/// Two spans format the same range the same way.
pub open spec fn same_attr(a: TextAttribute, b: TextAttribute) -> bool {
    a.start == b.start && a.end == b.end && same_value(a.value, b.value)
}

/// Two lists of spans format the same ranges the same way, span by span.
pub open spec fn same_attrs(x: Seq<TextAttribute>, y: Seq<TextAttribute>) -> bool {
    &&& x.len() == y.len()
    &&& forall|i: int| 0 <= i < x.len() ==> #[trigger] same_attr(x[i], y[i])
}

fn same_rgb(x: &[u8; 3], y: &[u8; 3]) -> (r: bool)
    ensures
        r == (x@ == y@),
{
    let r = x[0] == y[0] && x[1] == y[1] && x[2] == y[2];
    if r {
        assert(x@ =~= y@);
    }
    r
}

/// Tests `same_value`.
pub fn values_same(a: &AttrValue, b: &AttrValue) -> (r: bool)
    ensures
        r == same_value(*a, *b),
{
    match (a, b) {
        (AttrValue::Family(x), AttrValue::Family(y)) => crate::utf8_text::same_text(x.as_str(), y.as_str()),
        (AttrValue::Color(x), AttrValue::Color(y)) => same_rgb(x, y),
        (AttrValue::BgColor(x), AttrValue::BgColor(y)) => same_rgb(x, y),
        (AttrValue::Size(x), AttrValue::Size(y)) => *x == *y,
        (AttrValue::Bold(x), AttrValue::Bold(y)) => *x == *y,
        (AttrValue::Italic(x), AttrValue::Italic(y)) => *x == *y,
        (AttrValue::Underline(x), AttrValue::Underline(y)) => *x == *y,
        _ => false,
    }
}

/// Tests `same_attrs`.
pub fn attrs_same(x: &Vec<TextAttribute>, y: &Vec<TextAttribute>) -> (r: bool)
    ensures
        r == same_attrs(x@, y@),
{
    if x.len() != y.len() {
        return false;
    }
    let n = x.len();
    let mut i: usize = 0;
    while i < n
        invariant
            n == x@.len(),
            n == y@.len(),
            i <= n,
            forall|j: int| 0 <= j < i ==> #[trigger] same_attr(x@[j], y@[j]),
        decreases n - i,
    {
        let same = x[i].start == y[i].start && x[i].end == y[i].end && values_same(
            &x[i].value,
            &y[i].value,
        );
        if !same {
            assert(!same_attr(x@[i as int], y@[i as int]));
            return false;
        }
        i = i + 1;
    }
    true
}

/// An equal copy of a list of attributes.
pub fn clone_attrs(attrs: &Vec<TextAttribute>) -> (r: Vec<TextAttribute>)
    ensures
        r@ == attrs@,
{
    let mut r: Vec<TextAttribute> = Vec::new();
    let n = attrs.len();
    for i in 0..n
        invariant
            n == attrs@.len(),
            r@ == attrs@.take(i as int),
    {
        r.push(attrs[i].clone_attr());
        assert(attrs@.take(i + 1) =~= attrs@.take(i as int).push(attrs@[i as int]));
    }
    assert(attrs@.take(n as int) =~= attrs@);
    r
}

// ── The meaning of a list of attributes ──────────────────────────────────────

/// The attribute covers byte position `p`.
pub open spec fn covers(a: TextAttribute, p: int) -> bool {
    a.start <= p < a.end
}

/// The value of kind `k` in force at byte `p`: the last attribute of that
/// kind in the list that covers `p` wins.
pub open spec fn value_at(attrs: Seq<TextAttribute>, k: u8, p: int) -> Option<AttrValue>
    decreases attrs.len(),
{
    if attrs.len() == 0 {
        None
    } else if covers(attrs.last(), p) && kind(attrs.last().value) == k {
        Some(attrs.last().value)
    } else {
        value_at(attrs.drop_last(), k, p)
    }
}

/// No attribute has a range that ends before it starts.
pub open spec fn ranges_ordered(attrs: Seq<TextAttribute>) -> bool {
    forall|i: int| 0 <= i < attrs.len() ==> #[trigger] attrs[i].start <= attrs[i].end
}

/// No two attributes of the same kind cover a common byte, and no range is empty.
pub open spec fn spans_disjoint(attrs: Seq<TextAttribute>) -> bool {
    &&& forall|i: int| 0 <= i < attrs.len() ==> #[trigger] attrs[i].start < attrs[i].end
    &&& forall|i: int, j: int|
        0 <= i < j < attrs.len() && kind(#[trigger] attrs[i].value) == kind(#[trigger] attrs[j].value)
            ==> attrs[i].end <= attrs[j].start || attrs[j].end <= attrs[i].start
}

// ── Cutting a byte range out of the spans ────────────────────────────────────

/// The attribute overlaps `[s, e)` and is of the selected kind (`None`: any kind).
pub open spec fn affected(a: TextAttribute, sel: Option<u8>, s: u32, e: u32) -> bool {
    &&& !(a.end <= s || a.start >= e)
    &&& match sel {
        Some(k) => kind(a.value) == k,
        None => true,
    }
}

/// The parts of an affected attribute that lie before `s` and after `e`.
pub open spec fn remnants(a: TextAttribute, s: u32, e: u32) -> Seq<TextAttribute> {
    (if a.start < s {
        seq![TextAttribute { start: a.start, end: s, value: a.value }]
    } else {
        Seq::empty()
    }) + (if a.end > e {
        seq![TextAttribute { start: e, end: a.end, value: a.value }]
    } else {
        Seq::empty()
    })
}

/// The attributes that `[s, e)` leaves alone, in their order.
pub open spec fn untouched(attrs: Seq<TextAttribute>, sel: Option<u8>, s: u32, e: u32) -> Seq<
    TextAttribute,
>
    decreases attrs.len(),
{
    if attrs.len() == 0 {
        Seq::empty()
    } else {
        untouched(attrs.drop_last(), sel, s, e) + if affected(attrs.last(), sel, s, e) {
            Seq::empty()
        } else {
            seq![attrs.last()]
        }
    }
}

/// The remnants of the affected attributes, in their order.
pub open spec fn trimmed(attrs: Seq<TextAttribute>, sel: Option<u8>, s: u32, e: u32) -> Seq<
    TextAttribute,
>
    decreases attrs.len(),
{
    if attrs.len() == 0 {
        Seq::empty()
    } else {
        trimmed(attrs.drop_last(), sel, s, e) + if affected(attrs.last(), sel, s, e) {
            remnants(attrs.last(), s, e)
        } else {
            Seq::empty()
        }
    }
}

/// Splits `attrs` into the attributes that `[s, e)` leaves alone and the
/// remnants of those it cuts.
pub fn cut_range(attrs: &Vec<TextAttribute>, sel: Option<u8>, s: u32, e: u32) -> (r: (
    Vec<TextAttribute>,
    Vec<TextAttribute>,
))
    ensures
        r.0@ == untouched(attrs@, sel, s, e),
        r.1@ == trimmed(attrs@, sel, s, e),
{
    let mut kept: Vec<TextAttribute> = Vec::new();
    let mut leftovers: Vec<TextAttribute> = Vec::new();
    let n = attrs.len();
    for i in 0..n
        invariant
            n == attrs@.len(),
            kept@ == untouched(attrs@.take(i as int), sel, s, e),
            leftovers@ == trimmed(attrs@.take(i as int), sel, s, e),
    {
        let a = &attrs[i];
        assert(attrs@.take(i + 1).drop_last() =~= attrs@.take(i as int));
        assert(attrs@.take(i + 1).last() == attrs@[i as int]);
        let hit = !(a.end <= s || a.start >= e) && match sel {
            Some(k) => a.value.kind_of() == k,
            None => true,
        };
        if hit {
            let ghost before = leftovers@;
            if a.start < s {
                leftovers.push(TextAttribute { start: a.start, end: s, value: a.value.clone_value() });
            }
            if a.end > e {
                leftovers.push(TextAttribute { start: e, end: a.end, value: a.value.clone_value() });
            }
            assert(leftovers@ =~= before + remnants(*a, s, e));
            assert(kept@ =~= untouched(attrs@.take(i as int), sel, s, e) + Seq::empty());
        } else {
            kept.push(a.clone_attr());
            assert(leftovers@ =~= trimmed(attrs@.take(i as int), sel, s, e) + Seq::empty());
        }
    }
    assert(attrs@.take(n as int) =~= attrs@);
    (kept, leftovers)
}

/// The list of attributes after `value` is applied to `[start, end)`.
pub open spec fn applied(attrs: Seq<TextAttribute>, start: usize, end: usize, value: AttrValue) -> Seq<
    TextAttribute,
> {
    if start >= end {
        attrs
    } else {
        let s = start as u32;
        let e = end as u32;
        untouched(attrs, Some(kind(value)), s, e) + trimmed(attrs, Some(kind(value)), s, e) + seq![
            TextAttribute { start: s, end: e, value },
        ]
    }
}

/// The list of attributes after all formatting is removed from `[start, end)`.
pub open spec fn cleared(attrs: Seq<TextAttribute>, start: usize, end: usize) -> Seq<TextAttribute> {
    if start >= end {
        attrs
    } else {
        untouched(attrs, None, start as u32, end as u32) + trimmed(
            attrs,
            None,
            start as u32,
            end as u32,
        )
    }
}

/// Applies `value` to `[start, end)`, replacing the overlapping parts of
/// attributes of the same kind.
pub fn apply_format_to(attrs: &mut Vec<TextAttribute>, start: usize, end: usize, value: AttrValue)
    ensures
        final(attrs)@ == applied(old(attrs)@, start, end, value),
{
    if start >= end {
        return ;
    }
    let s = start as u32;
    let e = end as u32;
    let k = value.kind_of();
    let (kept, mut leftovers) = cut_range(attrs, Some(k), s, e);
    *attrs = kept;
    attrs.append(&mut leftovers);
    attrs.push(TextAttribute { start: s, end: e, value });
}

/// Removes every attribute from `[start, end)`, keeping the parts outside it.
pub fn clear_format_in(attrs: &mut Vec<TextAttribute>, start: usize, end: usize)
    ensures
        final(attrs)@ == cleared(old(attrs)@, start, end),
{
    if start >= end {
        return ;
    }
    let s = start as u32;
    let e = end as u32;
    let (kept, mut leftovers) = cut_range(attrs, None, s, e);
    *attrs = kept;
    attrs.append(&mut leftovers);
}

// ── Moving spans when text is inserted or deleted ────────────────────────────

/// An attribute after `m` bytes are inserted at byte `p`: bounds past `p` move right.
pub open spec fn shifted_for_insert(a: TextAttribute, p: u32, m: u32) -> TextAttribute {
    TextAttribute {
        start: if a.start > p { (a.start + m) as u32 } else { a.start },
        end: if a.end > p { (a.end + m) as u32 } else { a.end },
        value: a.value,
    }
}

/// The attributes after `m` bytes are inserted at `p`.
pub open spec fn after_insert(attrs: Seq<TextAttribute>, p: u32, m: u32) -> Seq<TextAttribute> {
    attrs.map_values(|a: TextAttribute| shifted_for_insert(a, p, m))
}

/// Inserting `m` bytes at `p` moves no bound of `attrs` past `u32::MAX`.
pub open spec fn insert_fits(attrs: Seq<TextAttribute>, p: u32, m: u32) -> bool {
    forall|i: int|
        0 <= i < attrs.len() ==> (#[trigger] attrs[i].start > p ==> attrs[i].start + m <= u32::MAX)
            && (attrs[i].end > p ==> attrs[i].end + m <= u32::MAX)
}

/// Shifts attribute ranges to account for `n` bytes inserted at `pos`.
pub fn shift_attrs_insert(attrs: &mut Vec<TextAttribute>, pos: usize, n: usize)
    requires
        insert_fits(old(attrs)@, pos as u32, n as u32),
    ensures
        final(attrs)@ == after_insert(old(attrs)@, pos as u32, n as u32),
{
    let p = pos as u32;
    let m = n as u32;
    let mut out: Vec<TextAttribute> = Vec::new();
    let len = attrs.len();
    for i in 0..len
        invariant
            len == attrs@.len(),
            insert_fits(attrs@, p, m),
            p == pos as u32,
            m == n as u32,
            out@.len() == i,
            forall|j: int| 0 <= j < i ==> out@[j] == shifted_for_insert(#[trigger] attrs@[j], p, m),
    {
        let a = &attrs[i];
        let start = if a.start > p { a.start + m } else { a.start };
        let end = if a.end > p { a.end + m } else { a.end };
        out.push(TextAttribute { start, end, value: a.value.clone_value() });
    }
    assert(out@ =~= after_insert(attrs@, p, m));
    *attrs = out;
}

/// An attribute after the `m` bytes at `[p, p + m)` are deleted: `None` when
/// nothing of it survives.
pub open spec fn shifted_for_delete(a: TextAttribute, p: u32, m: u32) -> Option<TextAttribute> {
    let del_end = p + m;
    if a.end <= p {
        Some(a)
    } else if a.start >= del_end {
        Some(TextAttribute { start: (a.start - m) as u32, end: (a.end - m) as u32, value: a.value })
    } else {
        let new_start = if a.start < p { a.start } else { p };
        let new_end = if a.end > del_end { (a.end - m) as u32 } else { p };
        if new_end > new_start {
            Some(TextAttribute { start: new_start, end: new_end, value: a.value })
        } else {
            None
        }
    }
}

/// The attributes that `f` keeps, each replaced by what `f` makes of it, in their order.
pub open spec fn keep_some(
    attrs: Seq<TextAttribute>,
    f: spec_fn(TextAttribute) -> Option<TextAttribute>,
) -> Seq<TextAttribute>
    decreases attrs.len(),
{
    if attrs.len() == 0 {
        Seq::empty()
    } else {
        keep_some(attrs.drop_last(), f) + match f(attrs.last()) {
            Some(b) => seq![b],
            None => Seq::empty(),
        }
    }
}

/// The attributes that survive a deletion, moved, in their order.
pub open spec fn after_delete(attrs: Seq<TextAttribute>, p: u32, m: u32) -> Seq<TextAttribute> {
    keep_some(attrs, |a: TextAttribute| shifted_for_delete(a, p, m))
}

/// Deleting `m` bytes at `p` needs no arithmetic outside `u32`.
pub open spec fn delete_fits(attrs: Seq<TextAttribute>, p: u32, m: u32) -> bool {
    &&& p + m <= u32::MAX
    &&& forall|i: int|
        0 <= i < attrs.len() ==> (#[trigger] attrs[i].end > p && attrs[i].start >= p + m
            ==> attrs[i].end >= m)
}

/// Adjusts attribute ranges to account for `n` bytes deleted starting at `pos`.
pub fn shift_attrs_delete(attrs: &mut Vec<TextAttribute>, pos: usize, n: usize)
    requires
        delete_fits(old(attrs)@, pos as u32, n as u32),
    ensures
        final(attrs)@ == after_delete(old(attrs)@, pos as u32, n as u32),
{
    let p = pos as u32;
    let m = n as u32;
    let del_end = p + m;
    let mut out: Vec<TextAttribute> = Vec::new();
    let len = attrs.len();
    for i in 0..len
        invariant
            len == attrs@.len(),
            delete_fits(attrs@, p, m),
            del_end == p + m,
            out@ == after_delete(attrs@.take(i as int), p, m),
    {
        let a = &attrs[i];
        assert(attrs@.take(i + 1).drop_last() =~= attrs@.take(i as int));
        assert(attrs@.take(i + 1).last() == attrs@[i as int]);
        let ghost before = out@;
        if a.end <= p {
            out.push(a.clone_attr());
        } else if a.start >= del_end {
            out.push(TextAttribute { start: a.start - m, end: a.end - m, value: a.value.clone_value() });
        } else {
            let new_start = if a.start < p { a.start } else { p };
            let new_end = if a.end > del_end { a.end - m } else { p };
            if new_end > new_start {
                out.push(TextAttribute { start: new_start, end: new_end, value: a.value.clone_value() });
            }
        }
        assert(out@ =~= after_delete(attrs@.take(i + 1), p, m));
    }
    assert(attrs@.take(len as int) =~= attrs@);
    *attrs = out;
}

// ── Moving spans between a chain's text and a frame's text ───────────────────

/// The part of an attribute inside `[s, e)`, moved so that `s` becomes 0.
pub open spec fn sliced(a: TextAttribute, s: u32, e: u32) -> Option<TextAttribute> {
    if a.end <= s || a.start >= e {
        None
    } else {
        let cs = (if a.start > s { a.start } else { s }) - s;
        let ce = (if a.end < e { a.end } else { e }) - s;
        if ce > cs {
            Some(TextAttribute { start: cs as u32, end: ce as u32, value: a.value })
        } else {
            None
        }
    }
}

/// The attributes of `attrs` cut to `[s, e)` and moved so that `s` becomes 0.
pub open spec fn slice_seq(attrs: Seq<TextAttribute>, s: u32, e: u32) -> Seq<TextAttribute> {
    keep_some(attrs, |a: TextAttribute| sliced(a, s, e))
}

/// Cutting spans to `[0, e)` and then to `[o, e)` cuts them to `[o, e)`.
pub proof fn lemma_slice_twice(attrs: Seq<TextAttribute>, o: u32, e: u32)
    requires
        o <= e,
    ensures
        slice_seq(slice_seq(attrs, 0, e), o, e) == slice_seq(attrs, o, e),
    decreases attrs.len(),
{
    if attrs.len() > 0 {
        lemma_slice_twice(attrs.drop_last(), o, e);
        let a = attrs.last();
        let s0 = slice_seq(attrs.drop_last(), 0, e);
        match sliced(a, 0, e) {
            Some(b) => {
                assert(slice_seq(attrs, 0, e) == s0.push(b));
                assert(s0.push(b).drop_last() =~= s0);
                assert(sliced(b, o, e) == sliced(a, o, e));
            },
            None => {
                assert(slice_seq(attrs, 0, e) =~= s0);
                assert(sliced(a, o, e) is None);
            },
        }
    }
}

/// Returns the attributes that overlap `[start, end)`, clamped to it and moved
/// so that positions are relative to `start`.
pub fn slice_attrs_for_range(global_attrs: &Vec<TextAttribute>, start: usize, end: usize) -> (r: Vec<
    TextAttribute,
>)
    requires
        start <= end <= u32::MAX,
    ensures
        r@ == slice_seq(global_attrs@, start as u32, end as u32),
{
    let s = start as u32;
    let e = end as u32;
    let mut out: Vec<TextAttribute> = Vec::new();
    let len = global_attrs.len();
    for i in 0..len
        invariant
            len == global_attrs@.len(),
            s <= e,
            out@ == slice_seq(global_attrs@.take(i as int), s, e),
    {
        let a = &global_attrs[i];
        assert(global_attrs@.take(i + 1).drop_last() =~= global_attrs@.take(i as int));
        assert(global_attrs@.take(i + 1).last() == global_attrs@[i as int]);
        if !(a.end <= s || a.start >= e) {
            let clamped_start = (if a.start > s { a.start } else { s }) - s;
            let clamped_end = (if a.end < e { a.end } else { e }) - s;
            if clamped_end > clamped_start {
                out.push(TextAttribute { start: clamped_start, end: clamped_end, value: a.value.clone_value() });
            }
        }
        assert(out@ =~= slice_seq(global_attrs@.take(i + 1), s, e));
    }
    assert(global_attrs@.take(len as int) =~= global_attrs@);
    out
}

/// An attribute moved right by `off` bytes.
pub open spec fn moved(a: TextAttribute, off: u32) -> TextAttribute {
    TextAttribute { start: (a.start + off) as u32, end: (a.end + off) as u32, value: a.value }
}

/// Every attribute moved right by `off` bytes.
pub open spec fn moved_all(attrs: Seq<TextAttribute>, off: u32) -> Seq<TextAttribute> {
    attrs.map_values(|a: TextAttribute| moved(a, off))
}

/// Moving every attribute right by `off` keeps its bounds in `u32`.
pub open spec fn move_fits(attrs: Seq<TextAttribute>, off: u32) -> bool {
    forall|i: int|
        0 <= i < attrs.len() ==> #[trigger] attrs[i].start + off <= u32::MAX && attrs[i].end + off
            <= u32::MAX
}

/// Returns the attributes moved right by `offset` bytes.
pub fn shift_attrs(attrs: &Vec<TextAttribute>, offset: usize) -> (r: Vec<TextAttribute>)
    requires
        move_fits(attrs@, offset as u32),
    ensures
        r@ == moved_all(attrs@, offset as u32),
{
    let off = offset as u32;
    let mut out: Vec<TextAttribute> = Vec::new();
    let len = attrs.len();
    for i in 0..len
        invariant
            len == attrs@.len(),
            off == offset as u32,
            move_fits(attrs@, off),
            out@.len() == i,
            forall|j: int| 0 <= j < i ==> out@[j] == moved(#[trigger] attrs@[j], off),
    {
        let a = &attrs[i];
        out.push(TextAttribute { start: a.start + off, end: a.end + off, value: a.value.clone_value() });
    }
    assert(out@ =~= moved_all(attrs@, off));
    out
}

} // verus!
