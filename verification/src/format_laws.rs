//! What formatting and editing operations do to the formatting in force at
//! each byte.
use vstd::prelude::*;
use crate::format::{
    after_delete, after_insert, moved_all, applied, cleared, covers, delete_fits, insert_fits, keep_some, kind, move_fits,
    moved, remnants, shifted_for_delete, shifted_for_insert, slice_seq, sliced, trimmed, untouched,
    value_at, affected, AttrValue, TextAttribute,
};

verus! {

/// How many attributes of kind `k` cover byte `p`.
pub open spec fn cover_count(attrs: Seq<TextAttribute>, k: u8, p: int) -> nat
    decreases attrs.len(),
{
    if attrs.len() == 0 {
        0
    } else {
        cover_count(attrs.drop_last(), k, p) + if covers(attrs.last(), p) && kind(attrs.last().value)
            == k {
            1nat
        } else {
            0nat
        }
    }
}

/// At most one attribute of each kind covers any byte.
pub open spec fn no_overlap(attrs: Seq<TextAttribute>) -> bool {
    forall|k: u8, p: int| #[trigger] cover_count(attrs, k, p) <= 1
}

proof fn lemma_value_at_concat(a: Seq<TextAttribute>, b: Seq<TextAttribute>, k: u8, p: int)
    ensures
        value_at(a + b, k, p) == match value_at(b, k, p) {
            Some(v) => Some(v),
            None => value_at(a, k, p),
        },
    decreases b.len(),
{
    if b.len() == 0 {
        assert(a + b =~= a);
    } else {
        assert((a + b).drop_last() =~= a + b.drop_last());
        assert((a + b).last() == b.last());
        lemma_value_at_concat(a, b.drop_last(), k, p);
    }
}

proof fn lemma_count_concat(a: Seq<TextAttribute>, b: Seq<TextAttribute>, k: u8, p: int)
    ensures
        cover_count(a + b, k, p) == cover_count(a, k, p) + cover_count(b, k, p),
    decreases b.len(),
{
    if b.len() == 0 {
        assert(a + b =~= a);
    } else {
        assert((a + b).drop_last() =~= a + b.drop_last());
        assert((a + b).last() == b.last());
        lemma_count_concat(a, b.drop_last(), k, p);
    }
}

proof fn lemma_count_zero(a: Seq<TextAttribute>, k: u8, p: int)
    requires
        cover_count(a, k, p) == 0,
    ensures
        value_at(a, k, p) == None::<AttrValue>,
    decreases a.len(),
{
    if a.len() > 0 {
        lemma_count_zero(a.drop_last(), k, p);
    }
}

proof fn lemma_remnants_count(x: TextAttribute, s: u32, e: u32, k: u8, p: int)
    requires
        s <= e,
        !(x.end <= s || x.start >= e),
    ensures
        cover_count(remnants(x, s, e), k, p) <= if covers(x, p) && kind(x.value) == k {
            1nat
        } else {
            0nat
        },
        s <= p < e ==> cover_count(remnants(x, s, e), k, p) == 0,
        (p < s || p >= e) && covers(x, p) && kind(x.value) == k ==> value_at(
            remnants(x, s, e),
            k,
            p,
        ) == Some(x.value),
{
    let l: Seq<TextAttribute> = if x.start < s {
        seq![TextAttribute { start: x.start, end: s, value: x.value }]
    } else {
        Seq::empty()
    };
    let r: Seq<TextAttribute> = if x.end > e {
        seq![TextAttribute { start: e, end: x.end, value: x.value }]
    } else {
        Seq::empty()
    };
    lemma_count_concat(l, r, k, p);
    lemma_value_at_concat(l, r, k, p);
    reveal_with_fuel(cover_count, 2);
    reveal_with_fuel(value_at, 2);
    if l.len() > 0 {
        assert(l.drop_last() =~= Seq::<TextAttribute>::empty());
    }
    if r.len() > 0 {
        assert(r.drop_last() =~= Seq::<TextAttribute>::empty());
    }
}

/// Cutting a range never adds coverage, and clears it inside the range.
proof fn lemma_cut_count(
    attrs: Seq<TextAttribute>,
    sel: Option<u8>,
    s: u32,
    e: u32,
    k: u8,
    p: int,
)
    requires
        s <= e,
    ensures
        cover_count(untouched(attrs, sel, s, e), k, p) + cover_count(trimmed(attrs, sel, s, e), k, p)
            <= cover_count(attrs, k, p),
        s <= p < e && (sel == Some(k) || sel is None) ==> cover_count(
            untouched(attrs, sel, s, e),
            k,
            p,
        ) + cover_count(trimmed(attrs, sel, s, e), k, p) == 0,
    decreases attrs.len(),
{
    if attrs.len() > 0 {
        let x = attrs.last();
        let pre = attrs.drop_last();
        lemma_cut_count(pre, sel, s, e, k, p);
        let ux: Seq<TextAttribute> = if affected(x, sel, s, e) {
            Seq::empty()
        } else {
            seq![x]
        };
        let tx: Seq<TextAttribute> = if affected(x, sel, s, e) {
            remnants(x, s, e)
        } else {
            Seq::empty()
        };
        lemma_count_concat(untouched(pre, sel, s, e), ux, k, p);
        lemma_count_concat(trimmed(pre, sel, s, e), tx, k, p);
        if affected(x, sel, s, e) {
            lemma_remnants_count(x, s, e, k, p);
        }
        reveal_with_fuel(cover_count, 2);
        if ux.len() > 0 {
            assert(ux.drop_last() =~= Seq::<TextAttribute>::empty());
        }
    }
}

/// Outside the cut range, the value in force is unchanged, provided at most
/// one attribute of the kind covers the byte.
proof fn lemma_cut_value_outside(
    attrs: Seq<TextAttribute>,
    sel: Option<u8>,
    s: u32,
    e: u32,
    k: u8,
    p: int,
)
    requires
        s <= e,
        p < s || p >= e,
        cover_count(attrs, k, p) <= 1,
    ensures
        value_at(untouched(attrs, sel, s, e) + trimmed(attrs, sel, s, e), k, p) == value_at(
            attrs,
            k,
            p,
        ),
    decreases attrs.len(),
{
    if attrs.len() > 0 {
        let x = attrs.last();
        let pre = attrs.drop_last();
        let up = untouched(pre, sel, s, e);
        let tp = trimmed(pre, sel, s, e);
        let ux: Seq<TextAttribute> = if affected(x, sel, s, e) {
            Seq::empty()
        } else {
            seq![x]
        };
        let tx: Seq<TextAttribute> = if affected(x, sel, s, e) {
            remnants(x, s, e)
        } else {
            Seq::empty()
        };
        assert(untouched(attrs, sel, s, e) + trimmed(attrs, sel, s, e) =~= ((up + ux) + tp) + tx);
        lemma_value_at_concat((up + ux) + tp, tx, k, p);
        lemma_value_at_concat(up + ux, tp, k, p);
        lemma_value_at_concat(up, ux, k, p);
        lemma_value_at_concat(up, tp, k, p);
        if affected(x, sel, s, e) {
            lemma_remnants_count(x, s, e, k, p);
        }
        lemma_cut_count(pre, sel, s, e, k, p);
        reveal_with_fuel(value_at, 2);
        reveal_with_fuel(cover_count, 2);
        if ux.len() > 0 {
            assert(ux.drop_last() =~= Seq::<TextAttribute>::empty());
        }
        if covers(x, p) && kind(x.value) == k {
            lemma_count_zero(up, k, p);
            lemma_count_zero(tp, k, p);
            if !affected(x, sel, s, e) {
                lemma_count_zero(tx, k, p);
            }
        } else {
            lemma_cut_value_outside(pre, sel, s, e, k, p);
            lemma_count_zero(tx, k, p);
        }
    }
}

/// Cutting by kind `kv` leaves every other kind alone.
proof fn lemma_cut_other_kind(
    attrs: Seq<TextAttribute>,
    kv: u8,
    s: u32,
    e: u32,
    k: u8,
    p: int,
)
    requires
        k != kv,
        s <= e,
    ensures
        value_at(untouched(attrs, Some(kv), s, e), k, p) == value_at(attrs, k, p),
        cover_count(trimmed(attrs, Some(kv), s, e), k, p) == 0,
    decreases attrs.len(),
{
    if attrs.len() > 0 {
        let x = attrs.last();
        let pre = attrs.drop_last();
        lemma_cut_other_kind(pre, kv, s, e, k, p);
        let ux: Seq<TextAttribute> = if affected(x, Some(kv), s, e) {
            Seq::empty()
        } else {
            seq![x]
        };
        let tx: Seq<TextAttribute> = if affected(x, Some(kv), s, e) {
            remnants(x, s, e)
        } else {
            Seq::empty()
        };
        lemma_value_at_concat(untouched(pre, Some(kv), s, e), ux, k, p);
        lemma_count_concat(trimmed(pre, Some(kv), s, e), tx, k, p);
        if affected(x, Some(kv), s, e) {
            lemma_remnants_count(x, s, e, k, p);
        }
        reveal_with_fuel(value_at, 2);
        if ux.len() > 0 {
            assert(ux.drop_last() =~= Seq::<TextAttribute>::empty());
        }
    }
}

/// Applying a format sets it on its whole range and leaves every other kind
/// of formatting unchanged everywhere.
pub proof fn law_apply_format_sets_range(
    attrs: Seq<TextAttribute>,
    start: usize,
    end: usize,
    value: AttrValue,
)
    requires
        start < end <= u32::MAX,
    ensures
        forall|p: int|
            start <= p < end ==> #[trigger] value_at(applied(attrs, start, end, value), kind(value), p)
                == Some(value),
        forall|k: u8, p: int|
            k != kind(value) ==> #[trigger] value_at(applied(attrs, start, end, value), k, p)
                == value_at(attrs, k, p),
{
    let s = start as u32;
    let e = end as u32;
    let kv = kind(value);
    let u = untouched(attrs, Some(kv), s, e);
    let t = trimmed(attrs, Some(kv), s, e);
    let n = seq![TextAttribute { start: s, end: e, value }];
    assert forall|p: int| start <= p < end implies #[trigger] value_at(
        applied(attrs, start, end, value),
        kv,
        p,
    ) == Some(value) by {
        assert(applied(attrs, start, end, value).last() == n[0]);
    }
    assert forall|k: u8, p: int| k != kv implies #[trigger] value_at(
        applied(attrs, start, end, value),
        k,
        p,
    ) == value_at(attrs, k, p) by {
        lemma_value_at_concat(u + t, n, k, p);
        lemma_value_at_concat(u, t, k, p);
        lemma_cut_other_kind(attrs, kv, s, e, k, p);
        lemma_count_zero(t, k, p);
        reveal_with_fuel(value_at, 2);
        assert(n.drop_last() =~= Seq::<TextAttribute>::empty());
    }
}

/// Applying a format to spans that do not overlap within a kind keeps them
/// so, and changes nothing outside the formatted range.
pub proof fn law_apply_format_keeps_outside(
    attrs: Seq<TextAttribute>,
    start: usize,
    end: usize,
    value: AttrValue,
)
    requires
        start < end <= u32::MAX,
        no_overlap(attrs),
    ensures
        no_overlap(applied(attrs, start, end, value)),
        forall|k: u8, p: int|
            (p < start || p >= end) ==> #[trigger] value_at(applied(attrs, start, end, value), k, p)
                == value_at(attrs, k, p),
{
    let s = start as u32;
    let e = end as u32;
    let kv = kind(value);
    let u = untouched(attrs, Some(kv), s, e);
    let t = trimmed(attrs, Some(kv), s, e);
    let n = seq![TextAttribute { start: s, end: e, value }];
    let r = applied(attrs, start, end, value);
    assert(r == u + t + n);
    assert(n.drop_last() =~= Seq::<TextAttribute>::empty());
    assert forall|k: u8, p: int| #[trigger] cover_count(r, k, p) <= 1 by {
        assert(cover_count(attrs, k, p) <= 1);
        lemma_count_concat(u + t, n, k, p);
        lemma_count_concat(u, t, k, p);
        lemma_cut_count(attrs, Some(kv), s, e, k, p);
        reveal_with_fuel(cover_count, 2);
    }
    assert forall|k: u8, p: int| (p < start || p >= end) implies #[trigger] value_at(r, k, p)
        == value_at(attrs, k, p) by {
        assert(cover_count(attrs, k, p) <= 1);
        lemma_value_at_concat(u + t, n, k, p);
        lemma_cut_value_outside(attrs, Some(kv), s, e, k, p);
        reveal_with_fuel(value_at, 2);
    }
}

/// Clearing formatting leaves no formatting of any kind on the cleared range.
pub proof fn law_clear_format_empties_range(attrs: Seq<TextAttribute>, start: usize, end: usize)
    requires
        start < end <= u32::MAX,
    ensures
        forall|k: u8, p: int|
            start <= p < end ==> #[trigger] value_at(cleared(attrs, start, end), k, p) == None::<
                AttrValue,
            >,
{
    let s = start as u32;
    let e = end as u32;
    assert forall|k: u8, p: int| start <= p < end implies #[trigger] value_at(
        cleared(attrs, start, end),
        k,
        p,
    ) == None::<AttrValue> by {
        lemma_cut_count(attrs, None, s, e, k, p);
        lemma_count_concat(untouched(attrs, None, s, e), trimmed(attrs, None, s, e), k, p);
        lemma_count_zero(cleared(attrs, start, end), k, p);
    }
}

/// Clearing formatting on spans that do not overlap within a kind keeps them
/// so, and changes nothing outside the cleared range.
pub proof fn law_clear_format_keeps_outside(attrs: Seq<TextAttribute>, start: usize, end: usize)
    requires
        start < end <= u32::MAX,
        no_overlap(attrs),
    ensures
        no_overlap(cleared(attrs, start, end)),
        forall|k: u8, p: int|
            (p < start || p >= end) ==> #[trigger] value_at(cleared(attrs, start, end), k, p)
                == value_at(attrs, k, p),
{
    let s = start as u32;
    let e = end as u32;
    let r = cleared(attrs, start, end);
    assert forall|k: u8, p: int| #[trigger] cover_count(r, k, p) <= 1 by {
        assert(cover_count(attrs, k, p) <= 1);
        lemma_count_concat(untouched(attrs, None, s, e), trimmed(attrs, None, s, e), k, p);
        lemma_cut_count(attrs, None, s, e, k, p);
    }
    assert forall|k: u8, p: int| (p < start || p >= end) implies #[trigger] value_at(r, k, p)
        == value_at(attrs, k, p) by {
        assert(cover_count(attrs, k, p) <= 1);
        lemma_cut_value_outside(attrs, None, s, e, k, p);
    }
}

// ── Moving spans ──────────────────────────────────────────────────────────────

proof fn lemma_keep_some_value(
    attrs: Seq<TextAttribute>,
    f: spec_fn(TextAttribute) -> Option<TextAttribute>,
    k: u8,
    q: int,
    q0: int,
)
    requires
        forall|i: int|
            0 <= i < attrs.len() ==> match #[trigger] f(attrs[i]) {
                Some(b) => b.value == attrs[i].value && (covers(b, q) == covers(attrs[i], q0)),
                None => !covers(attrs[i], q0),
            },
    ensures
        value_at(keep_some(attrs, f), k, q) == value_at(attrs, k, q0),
    decreases attrs.len(),
{
    if attrs.len() > 0 {
        let pre = attrs.drop_last();
        let x = attrs.last();
        assert forall|i: int| 0 <= i < pre.len() implies match #[trigger] f(pre[i]) {
            Some(b) => b.value == pre[i].value && (covers(b, q) == covers(pre[i], q0)),
            None => !covers(pre[i], q0),
        } by {
            assert(pre[i] == attrs[i]);
        }
        lemma_keep_some_value(pre, f, k, q, q0);
        let tail: Seq<TextAttribute> = match f(x) {
            Some(b) => seq![b],
            None => Seq::empty(),
        };
        assert(f(attrs[attrs.len() - 1]) == f(x));
        lemma_value_at_concat(keep_some(pre, f), tail, k, q);
        reveal_with_fuel(value_at, 2);
        if tail.len() > 0 {
            assert(tail.drop_last() =~= Seq::<TextAttribute>::empty());
        }
    }
}

proof fn lemma_map_value(
    attrs: Seq<TextAttribute>,
    f: spec_fn(TextAttribute) -> TextAttribute,
    k: u8,
    q: int,
    q0: int,
)
    requires
        forall|i: int|
            0 <= i < attrs.len() ==> (#[trigger] f(attrs[i])).value == attrs[i].value && (covers(
                f(attrs[i]),
                q,
            ) == covers(attrs[i], q0)),
    ensures
        value_at(attrs.map_values(f), k, q) == value_at(attrs, k, q0),
    decreases attrs.len(),
{
    if attrs.len() > 0 {
        let pre = attrs.drop_last();
        assert(attrs.map_values(f).drop_last() =~= pre.map_values(f));
        assert forall|i: int| 0 <= i < pre.len() implies (#[trigger] f(pre[i])).value == pre[i].value
            && (covers(f(pre[i]), q) == covers(pre[i], q0)) by {
            assert(pre[i] == attrs[i]);
        }
        lemma_map_value(pre, f, k, q, q0);
        assert(f(attrs[attrs.len() - 1]) == f(attrs.last()));
    }
}

/// Inserting text keeps the formatting of the existing text: bytes before the
/// insertion point keep theirs, bytes after it carry theirs along.
pub proof fn law_insert_keeps_formatting(attrs: Seq<TextAttribute>, pos: usize, n: usize)
    requires
        insert_fits(attrs, pos as u32, n as u32),
    ensures
        forall|k: u8, q: int|
            q < pos as u32 ==> #[trigger] value_at(
                after_insert(attrs, pos as u32, n as u32),
                k,
                q,
            ) == value_at(attrs, k, q),
        forall|k: u8, q: int|
            q >= pos as u32 + n as u32 ==> #[trigger] value_at(
                after_insert(attrs, pos as u32, n as u32),
                k,
                q,
            ) == value_at(attrs, k, q - n as u32),
{
    let p = pos as u32;
    let m = n as u32;
    let f = |a: TextAttribute| shifted_for_insert(a, p, m);
    assert forall|k: u8, q: int| q < p implies #[trigger] value_at(attrs.map_values(f), k, q)
        == value_at(attrs, k, q) by {
        lemma_map_value(attrs, f, k, q, q);
    }
    assert forall|k: u8, q: int| q >= p + m implies #[trigger] value_at(attrs.map_values(f), k, q)
        == value_at(attrs, k, q - m) by {
        lemma_map_value(attrs, f, k, q, q - m);
    }
}

/// Deleting text keeps the formatting of the surviving text: bytes before the
/// deleted range keep theirs, bytes after it carry theirs along.
pub proof fn law_delete_keeps_formatting(attrs: Seq<TextAttribute>, pos: usize, n: usize)
    requires
        delete_fits(attrs, pos as u32, n as u32),
    ensures
        forall|k: u8, q: int|
            q < pos as u32 ==> #[trigger] value_at(after_delete(attrs, pos as u32, n as u32), k, q)
                == value_at(attrs, k, q),
        forall|k: u8, q: int|
            q >= pos as u32 ==> #[trigger] value_at(after_delete(attrs, pos as u32, n as u32), k, q)
                == value_at(attrs, k, q + n as u32),
{
    let p = pos as u32;
    let m = n as u32;
    let f = |a: TextAttribute| shifted_for_delete(a, p, m);
    assert forall|k: u8, q: int| q < p implies #[trigger] value_at(after_delete(attrs, p, m), k, q)
        == value_at(attrs, k, q) by {
        lemma_keep_some_value(attrs, f, k, q, q);
    }
    assert forall|k: u8, q: int| q >= p implies #[trigger] value_at(after_delete(attrs, p, m), k, q)
        == value_at(attrs, k, q + m) by {
        lemma_keep_some_value(attrs, f, k, q, q + m);
    }
}

proof fn lemma_value_at_negative(attrs: Seq<TextAttribute>, k: u8)
    ensures
        value_at(attrs, k, -1) == None::<AttrValue>,
    decreases attrs.len(),
{
    if attrs.len() > 0 {
        lemma_value_at_negative(attrs.drop_last(), k);
    }
}

/// Slicing the spans to `[s, e)` gives the formatting of that range, moved to 0.
pub proof fn law_slice_keeps_formatting(attrs: Seq<TextAttribute>, s: u32, e: u32)
    requires
        s <= e,
    ensures
        forall|k: u8, q: int|
            0 <= q < e - s ==> #[trigger] value_at(slice_seq(attrs, s, e), k, q) == value_at(
                attrs,
                k,
                q + s,
            ),
        forall|k: u8, q: int|
            q < 0 || q >= e - s ==> #[trigger] value_at(slice_seq(attrs, s, e), k, q) == None::<
                AttrValue,
            >,
{
    let f = |a: TextAttribute| sliced(a, s, e);
    assert forall|k: u8, q: int| 0 <= q < e - s implies #[trigger] value_at(
        slice_seq(attrs, s, e),
        k,
        q,
    ) == value_at(attrs, k, q + s) by {
        lemma_keep_some_value(attrs, f, k, q, q + s);
    }
    assert forall|k: u8, q: int| q < 0 || q >= e - s implies #[trigger] value_at(
        slice_seq(attrs, s, e),
        k,
        q,
    ) == None::<AttrValue> by {
        lemma_keep_some_value(attrs, f, k, q, -1);
        lemma_value_at_negative(attrs, k);
    }
}

/// Moving the spans right by `off` moves the formatting with them.
pub proof fn law_move_keeps_formatting(attrs: Seq<TextAttribute>, off: u32)
    requires
        move_fits(attrs, off),
    ensures
        forall|k: u8, q: int|
            #[trigger] value_at(moved_all(attrs, off), k, q) == value_at(
                attrs,
                k,
                q - off,
            ),
{
    let f = |a: TextAttribute| moved(a, off);
    assert forall|k: u8, q: int| #[trigger] value_at(attrs.map_values(f), k, q) == value_at(
        attrs,
        k,
        q - off,
    ) by {
        lemma_map_value(attrs, f, k, q, q - off);
    }
}

} // verus!
