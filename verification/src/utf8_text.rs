//! Byte-offset helpers over UTF-8 text.
use vstd::prelude::*;
use vstd::utf8::*;

verus! {

broadcast use vstd::utf8::encode_utf8_valid_utf8;

/// The UTF-8 bytes of a string whose characters are `s`.
pub open spec fn text_bytes(s: Seq<char>) -> Seq<u8> {
    encode_utf8(s)
}

/// `i` is a character boundary of the UTF-8 text `s` (0 and the length included).
pub open spec fn boundary(s: Seq<char>, i: int) -> bool {
    is_char_boundary(text_bytes(s), i)
}

/// The nearest boundary strictly before `pos` (0 when there is none).
pub open spec fn prev_boundary(s: Seq<char>, pos: int) -> int
    decreases pos,
{
    if pos <= 0 {
        0
    } else if boundary(s, pos - 1) {
        pos - 1
    } else {
        prev_boundary(s, pos - 1)
    }
}

/// The nearest boundary strictly after `pos`, capped at the text's length.
pub open spec fn next_boundary(s: Seq<char>, pos: int) -> int
    decreases byte_len(s) - pos,
{
    if pos + 1 >= byte_len(s) {
        byte_len(s) as int
    } else if boundary(s, pos + 1) {
        pos + 1
    } else {
        next_boundary(s, pos + 1)
    }
}

/// Byte offset of the start of the character just before `pos`
/// (0 when `pos` is 0).
pub fn prev_char_boundary(s: &str, pos: usize) -> (r: usize)
    ensures
        r == prev_boundary(s@, pos as int),
        pos == 0 ==> r == 0,
        pos > 0 ==> r < pos && boundary(s@, r as int),
        forall|j: int| r < j < pos ==> !boundary(s@, j),
{
    if pos == 0 {
        return 0;
    }
    let mut i = pos - 1;
    while i > 0 && !s.is_char_boundary(i)
        invariant
            i < pos,
            forall|j: int| i < j < pos ==> !boundary(s@, j),
            prev_boundary(s@, pos as int) == prev_boundary(s@, i + 1),
        decreases i,
    {
        i -= 1;
    }
    proof {
        is_char_boundary_start_end_of_seq(text_bytes(s@));
    }
    i
}

/// Byte offset of the start of the character just after `pos`, capped at
/// the text's length.
pub fn next_char_boundary(s: &str, pos: usize) -> (r: usize)
    requires
        pos < usize::MAX,
    ensures
        r == next_boundary(s@, pos as int),
        pos >= text_bytes(s@).len() ==> r == text_bytes(s@).len(),
        pos < text_bytes(s@).len() ==> pos < r <= text_bytes(s@).len() && boundary(s@, r as int),
        forall|j: int| pos < j < r ==> !boundary(s@, j),
{
    let len = s.as_bytes().len();
    let mut i = pos + 1;
    while i < len && !s.is_char_boundary(i)
        invariant
            pos < i,
            len == text_bytes(s@).len(),
            forall|j: int| pos < j < i ==> !boundary(s@, j),
            next_boundary(s@, pos as int) == next_boundary(s@, i - 1),
        decreases len - i,
    {
        i += 1;
    }
    proof {
        is_char_boundary_start_end_of_seq(text_bytes(s@));
    }
    if i < len { i } else { len }
}

// ── Byte offsets of characters ───────────────────────────────────────────────

/// Length in bytes of the UTF-8 encoding of `s`.
pub open spec fn byte_len(s: Seq<char>) -> nat {
    encode_utf8(s).len()
}

/// Byte offset at which the character with index `ci` starts (the text's
/// length for `ci == s.len()`).
pub open spec fn byte_pos(s: Seq<char>, ci: int) -> nat {
    byte_len(s.take(ci))
}

/// Index of the character that starts at byte `b`.
pub open spec fn char_index(s: Seq<char>, b: int) -> int
    decreases s.len(),
{
    if b <= 0 || s.len() == 0 {
        0
    } else {
        1 + char_index(s.drop_first(), b - encode_scalar(s[0] as u32).len())
    }
}

pub proof fn lemma_encode_concat(a: Seq<char>, b: Seq<char>)
    ensures
        encode_utf8(a + b) == encode_utf8(a) + encode_utf8(b),
    decreases a.len(),
{
    if a.len() == 0 {
        assert(a + b =~= b);
        assert(encode_utf8(a) + encode_utf8(b) =~= encode_utf8(b));
    } else {
        assert((a + b).drop_first() =~= a.drop_first() + b);
        assert((a + b)[0] == a[0]);
        lemma_encode_concat(a.drop_first(), b);
        assert(encode_utf8(a + b) =~= encode_scalar(a[0] as u32) + (encode_utf8(a.drop_first())
            + encode_utf8(b)));
    }
}

pub proof fn lemma_encode_single(c: char)
    ensures
        encode_utf8(seq![c]) == encode_scalar(c as u32),
        1 <= encode_scalar(c as u32).len() <= 4,
{
    reveal_with_fuel(encode_utf8, 2);
    assert(seq![c][0] == c);
    assert(seq![c].drop_first() =~= Seq::<char>::empty());
    assert(encode_utf8(Seq::<char>::empty()) =~= Seq::<u8>::empty());
    assert(encode_utf8(seq![c]) =~= encode_scalar(c as u32));
}

/// Splitting the characters at `ci` splits the bytes at `byte_pos(s, ci)`.
pub proof fn lemma_split_bytes(s: Seq<char>, ci: int)
    requires
        0 <= ci <= s.len(),
    ensures
        text_bytes(s) == text_bytes(s.take(ci)) + text_bytes(s.skip(ci)),
        byte_pos(s, ci) <= byte_len(s),
        text_bytes(s).subrange(0, byte_pos(s, ci) as int) == text_bytes(s.take(ci)),
        text_bytes(s).subrange(byte_pos(s, ci) as int, byte_len(s) as int) == text_bytes(
            s.skip(ci),
        ),
{
    assert(s =~= s.take(ci) + s.skip(ci));
    lemma_encode_concat(s.take(ci), s.skip(ci));
    assert(text_bytes(s).subrange(0, byte_pos(s, ci) as int) =~= text_bytes(s.take(ci)));
    assert(text_bytes(s).subrange(byte_pos(s, ci) as int, byte_len(s) as int) =~= text_bytes(
        s.skip(ci),
    ));
}

pub proof fn lemma_byte_pos_step(s: Seq<char>, ci: int)
    requires
        0 <= ci < s.len(),
    ensures
        byte_pos(s, ci + 1) == byte_pos(s, ci) + encode_scalar(s[ci] as u32).len(),
        1 <= encode_scalar(s[ci] as u32).len() <= 4,
{
    assert(s.take(ci + 1) =~= s.take(ci) + seq![s[ci]]);
    lemma_encode_concat(s.take(ci), seq![s[ci]]);
    lemma_encode_single(s[ci]);
}

pub proof fn lemma_byte_pos_mono(s: Seq<char>, i: int, j: int)
    requires
        0 <= i <= j <= s.len(),
    ensures
        byte_pos(s, i) <= byte_pos(s, j),
        i < j ==> byte_pos(s, i) < byte_pos(s, j),
        byte_pos(s, 0) == 0,
        byte_pos(s, s.len() as int) == byte_len(s),
    decreases j - i,
{
    assert(s.take(0) =~= Seq::<char>::empty());
    assert(s.take(s.len() as int) =~= s);
    if i < j {
        lemma_byte_pos_step(s, j - 1);
        lemma_byte_pos_mono(s, i, j - 1);
    }
}

proof fn lemma_pop_first_encode(s: Seq<char>)
    requires
        s.len() > 0,
    ensures
        length_of_first_scalar(encode_utf8(s)) == encode_scalar(s[0] as u32).len(),
        pop_first_scalar(encode_utf8(s)) == encode_utf8(s.drop_first()),
{
    encode_utf8_first_scalar(s);
    assert(pop_first_scalar(encode_utf8(s)) =~= encode_utf8(s.drop_first()));
}

proof fn lemma_byte_pos_first(s: Seq<char>, ci: int)
    requires
        1 <= ci <= s.len(),
    ensures
        byte_pos(s, ci) == encode_scalar(s[0] as u32).len() + byte_pos(s.drop_first(), ci - 1),
{
    assert(s.take(ci) =~= seq![s[0]] + s.drop_first().take(ci - 1));
    lemma_encode_concat(seq![s[0]], s.drop_first().take(ci - 1));
    lemma_encode_single(s[0]);
}

/// The start of every character, and the end of the text, is a boundary.
pub proof fn lemma_boundary_at(s: Seq<char>, ci: int)
    requires
        0 <= ci <= s.len(),
    ensures
        boundary(s, byte_pos(s, ci) as int),
        char_index(s, byte_pos(s, ci) as int) == ci,
    decreases s.len(),
{
    assert(s.take(0) =~= Seq::<char>::empty());
    if ci > 0 {
        lemma_byte_pos_first(s, ci);
        lemma_pop_first_encode(s);
        lemma_boundary_at(s.drop_first(), ci - 1);
        lemma_byte_pos_mono(s, ci, s.len() as int);
        lemma_encode_single(s[0]);
    }
}

/// Every boundary is the start of a character or the end of the text.
pub proof fn lemma_boundary_index(s: Seq<char>, b: int)
    requires
        boundary(s, b),
    ensures
        0 <= char_index(s, b) <= s.len(),
        byte_pos(s, char_index(s, b)) == b,
    decreases s.len(),
{
    assert(s.take(0) =~= Seq::<char>::empty());
    if b != 0 {
        if s.len() == 0 {
            assert(encode_utf8(s) =~= Seq::<u8>::empty());
        } else {
            lemma_pop_first_encode(s);
            lemma_encode_single(s[0]);
            let l0 = encode_scalar(s[0] as u32).len() as int;
            lemma_boundary_index(s.drop_first(), b - l0);
            lemma_byte_pos_first(s, char_index(s, b));
        }
    }
}

/// The boundary just before the start of character `ci` is the start of
/// character `ci - 1`.
pub proof fn lemma_prev_boundary(s: Seq<char>, ci: int, r: int)
    requires
        1 <= ci <= s.len(),
        r < byte_pos(s, ci),
        boundary(s, r),
        forall|j: int| r < j < byte_pos(s, ci) ==> !boundary(s, j),
    ensures
        r == byte_pos(s, ci - 1),
{
    lemma_boundary_index(s, r);
    lemma_boundary_at(s, ci - 1);
    let cr = char_index(s, r);
    if cr >= ci {
        lemma_byte_pos_mono(s, ci, cr);
    }
    if cr < ci - 1 {
        lemma_byte_pos_mono(s, cr, ci - 1);
        lemma_byte_pos_mono(s, ci - 1, ci);
    }
}

/// The boundary just after the start of character `ci` is the start of
/// character `ci + 1`.
pub proof fn lemma_next_boundary(s: Seq<char>, ci: int, r: int)
    requires
        0 <= ci < s.len(),
        byte_pos(s, ci) < r,
        boundary(s, r),
        forall|j: int| byte_pos(s, ci) < j < r ==> !boundary(s, j),
    ensures
        r == byte_pos(s, ci + 1),
{
    lemma_boundary_index(s, r);
    lemma_boundary_at(s, ci + 1);
    let cr = char_index(s, r);
    if cr <= ci {
        lemma_byte_pos_mono(s, cr, ci);
    }
    if cr > ci + 1 {
        lemma_byte_pos_mono(s, ci + 1, cr);
        lemma_byte_pos_mono(s, ci, ci + 1);
    }
}

/// Characters are determined by their bytes.
pub proof fn lemma_bytes_determine(a: Seq<char>, b: Seq<char>)
    requires
        text_bytes(a) == text_bytes(b),
    ensures
        a == b,
{
    encode_utf8_decode_utf8(a);
    encode_utf8_decode_utf8(b);
}

// ── Reading and cutting text at boundaries ───────────────────────────────────

/// The character that starts at byte `b` (which must start one).
pub fn char_at(s: &str, b: usize) -> (c: char)
    requires
        boundary(s@, b as int),
        b < byte_len(s@),
    ensures
        0 <= char_index(s@, b as int) < s@.len(),
        c == s@[char_index(s@, b as int)],
{
    broadcast use vstd::string::group_string_axioms;

    proof {
        lemma_boundary_index(s@, b as int);
        lemma_split_bytes(s@, char_index(s@, b as int));
    }
    let (_, rest) = s.split_at(b);
    proof {
        lemma_bytes_determine(rest@, s@.skip(char_index(s@, b as int)));
    }
    let mut it = rest.chars();
    let c = it.next();
    match c {
        Some(ch) => ch,
        None => ' ',
    }
}

/// The text between two boundaries, as a new string.
pub fn substring(s: &str, a: usize, b: usize) -> (r: String)
    requires
        a <= b,
        boundary(s@, a as int),
        boundary(s@, b as int),
    ensures
        r@ == s@.subrange(char_index(s@, a as int), char_index(s@, b as int)),
{
    proof {
        lemma_boundary_index(s@, a as int);
        lemma_boundary_index(s@, b as int);
        let ca = char_index(s@, a as int);
        let cb = char_index(s@, b as int);
        if ca > cb {
            lemma_byte_pos_mono(s@, cb, ca);
        }
        lemma_split_bytes(s@, cb);
    }
    let (head, _) = s.split_at(b);
    proof {
        let cb = char_index(s@, b as int);
        lemma_bytes_determine(head@, s@.take(cb));
        assert(s@.take(cb).take(char_index(s@, a as int)) =~= s@.take(char_index(s@, a as int)));
        lemma_boundary_at(head@, char_index(s@, a as int));
        lemma_split_bytes(head@, char_index(s@, a as int));
    }
    let (_, mid) = head.split_at(a);
    proof {
        let ca = char_index(s@, a as int);
        lemma_bytes_determine(mid@, head@.skip(ca));
        assert(head@.skip(ca) =~= s@.subrange(ca, char_index(s@, b as int)));
    }
    mid.to_owned()
}

// ── Changing a string at boundaries ──────────────────────────────────────────

/// The characters of `s` without those between the boundaries `a` and `b`.
pub open spec fn cut(s: Seq<char>, a: int, b: int) -> Seq<char> {
    s.take(char_index(s, a)) + s.skip(char_index(s, b))
}

/// `ins` inserted into `s` at the boundary `a`.
pub open spec fn spliced(s: Seq<char>, a: int, ins: Seq<char>) -> Seq<char> {
    s.take(char_index(s, a)) + ins + s.skip(char_index(s, a))
}

/// Calls `String::drain(start..end)` and drops the iterator. std documents that
/// the byte range is removed from the string even if the iterator is not
/// consumed, and that the call panics unless both ends lie on character
/// boundaries; the contract states the bytes that remain.
#[verifier::external_body]
fn string_drain(s: &mut String, start: usize, end: usize)
    requires
        start <= end,
        boundary(old(s)@, start as int),
        boundary(old(s)@, end as int),
    ensures
        text_bytes(final(s)@) == text_bytes(old(s)@).subrange(0, start as int) + text_bytes(
            old(s)@,
        ).subrange(end as int, byte_len(old(s)@) as int),
{
    s.drain(start..end);
}

/// Calls `String::insert_str(idx, ins)`. std documents that the bytes of `ins`
/// are inserted at byte position `idx`, and that the call panics unless `idx`
/// lies on a character boundary; growing a string past `isize::MAX` bytes
/// panics too.
#[verifier::external_body]
fn string_insert_str(s: &mut String, idx: usize, ins: &str)
    requires
        boundary(old(s)@, idx as int),
        byte_len(old(s)@) + byte_len(ins@) <= isize::MAX,
    ensures
        text_bytes(final(s)@) == text_bytes(old(s)@).subrange(0, idx as int) + text_bytes(ins@)
            + text_bytes(old(s)@).subrange(idx as int, byte_len(old(s)@) as int),
{
    s.insert_str(idx, ins);
}

/// Calls `String::insert(idx, ch)`. std documents that the character is
/// inserted at byte position `idx`, and that the call panics unless `idx`
/// lies on a character boundary; growing a string past `isize::MAX` bytes
/// panics too.
#[verifier::external_body]
fn string_insert_char(s: &mut String, idx: usize, ch: char)
    requires
        boundary(old(s)@, idx as int),
        byte_len(old(s)@) + encode_scalar(ch as u32).len() <= isize::MAX,
    ensures
        text_bytes(final(s)@) == text_bytes(old(s)@).subrange(0, idx as int) + encode_scalar(
            ch as u32,
        ) + text_bytes(old(s)@).subrange(idx as int, byte_len(old(s)@) as int),
{
    s.insert(idx, ch);
}

/// Calls `char::len_utf8`: std documents it as the number of bytes the
/// character needs when encoded in UTF-8.
#[verifier::external_body]
pub(crate) fn char_utf8_len(ch: char) -> (r: usize)
    ensures
        r == encode_scalar(ch as u32).len(),
{
    ch.len_utf8()
}

/// Whether a character is white space: the Unicode `White_Space` property,
/// which std's `char::is_whitespace` tests. Its 25 code points are the
/// controls U+0009 to U+000D, the space, U+0085, the no-break space, U+1680,
/// the spaces U+2000 to U+200A, the line and paragraph separators, U+202F,
/// U+205F and the ideographic space U+3000.
pub open spec fn is_whitespace_char(c: char) -> bool {
    let n = c as u32;
    ||| 0x09 <= n <= 0x0D
    ||| n == 0x20
    ||| n == 0x85
    ||| n == 0xA0
    ||| n == 0x1680
    ||| 0x2000 <= n <= 0x200A
    ||| n == 0x2028
    ||| n == 0x2029
    ||| n == 0x202F
    ||| n == 0x205F
    ||| n == 0x3000
}

/// Tests for white space (see `is_whitespace_char`).
pub fn char_is_whitespace(c: char) -> (r: bool)
    ensures
        r == is_whitespace_char(c),
{
    let n = c as u32;
    (0x09 <= n && n <= 0x0D) || n == 0x20 || n == 0x85 || n == 0xA0 || n == 0x1680 || (0x2000
        <= n && n <= 0x200A) || n == 0x2028 || n == 0x2029 || n == 0x202F || n == 0x205F || n
        == 0x3000
}

/// Whether a character is a control character: the Unicode general category
/// `Cc`, which std's `char::is_control` tests, U+0000 to U+001F and U+007F to
/// U+009F.
pub open spec fn is_control_char(c: char) -> bool {
    let n = c as u32;
    n <= 0x1F || (0x7F <= n && n <= 0x9F)
}

/// Tests for a control character (see `is_control_char`).
pub fn char_is_control(c: char) -> (r: bool)
    ensures
        r == is_control_char(c),
{
    let n = c as u32;
    n <= 0x1F || (0x7F <= n && n <= 0x9F)
}

/// Removes the text between the boundaries `a <= b`.
pub fn remove_between(s: &mut String, a: usize, b: usize)
    requires
        a <= b,
        boundary(old(s)@, a as int),
        boundary(old(s)@, b as int),
    ensures
        final(s)@ == cut(old(s)@, a as int, b as int),
{
    let ghost t = s@;
    proof {
        lemma_boundary_index(t, a as int);
        lemma_boundary_index(t, b as int);
        let ca = char_index(t, a as int);
        let cb = char_index(t, b as int);
        lemma_split_bytes(t, ca);
        lemma_split_bytes(t, cb);
        lemma_encode_concat(t.take(ca), t.skip(cb));
    }
    string_drain(s, a, b);
    proof {
        lemma_bytes_determine(s@, cut(t, a as int, b as int));
    }
}

/// Inserts `ins` at the boundary `a`.
pub fn insert_at(s: &mut String, a: usize, ins: &str)
    requires
        boundary(old(s)@, a as int),
        byte_len(old(s)@) + byte_len(ins@) <= isize::MAX,
    ensures
        final(s)@ == spliced(old(s)@, a as int, ins@),
{
    let ghost t = s@;
    proof {
        lemma_boundary_index(t, a as int);
        let ca = char_index(t, a as int);
        lemma_split_bytes(t, ca);
        lemma_encode_concat(t.take(ca), ins@);
        lemma_encode_concat(t.take(ca) + ins@, t.skip(ca));
    }
    string_insert_str(s, a, ins);
    proof {
        lemma_bytes_determine(s@, spliced(t, a as int, ins@));
    }
}

/// Inserts the character `ch` at the boundary `a`.
pub fn insert_char_at(s: &mut String, a: usize, ch: char)
    requires
        boundary(old(s)@, a as int),
        byte_len(old(s)@) + encode_scalar(ch as u32).len() <= isize::MAX,
    ensures
        final(s)@ == spliced(old(s)@, a as int, seq![ch]),
{
    let ghost t = s@;
    proof {
        lemma_boundary_index(t, a as int);
        let ca = char_index(t, a as int);
        lemma_split_bytes(t, ca);
        lemma_encode_single(ch);
        lemma_encode_concat(t.take(ca), seq![ch]);
        lemma_encode_concat(t.take(ca) + seq![ch], t.skip(ca));
    }
    string_insert_char(s, a, ch);
    proof {
        lemma_bytes_determine(s@, spliced(t, a as int, seq![ch]));
    }
}

/// The byte length of a string, as a `usize`.
pub fn str_byte_len(s: &str) -> (r: usize)
    ensures
        r == byte_len(s@),
{
    s.as_bytes().len()
}

/// A boundary lies within the text.
pub proof fn lemma_boundary_le_len(s: Seq<char>, b: int)
    requires
        boundary(s, b),
    ensures
        0 <= b <= byte_len(s),
{
    lemma_boundary_index(s, b);
    lemma_byte_pos_mono(s, char_index(s, b), s.len() as int);
}

/// Offsets in a text that shares a prefix with another text.
pub proof fn lemma_prefix_pos(s: Seq<char>, t: Seq<char>, ci: int)
    requires
        0 <= ci <= s.len(),
        ci <= t.len(),
        s.take(ci) == t.take(ci),
    ensures
        byte_pos(t, ci) == byte_pos(s, ci),
        boundary(t, byte_pos(s, ci) as int),
        char_index(t, byte_pos(s, ci) as int) == ci,
{
    lemma_boundary_at(t, ci);
}

/// Where the boundaries of a spliced text lie.
pub proof fn lemma_spliced_positions(s: Seq<char>, a: int, ins: Seq<char>)
    requires
        boundary(s, a),
    ensures
        boundary(spliced(s, a, ins), a),
        char_index(spliced(s, a, ins), a) == char_index(s, a),
        boundary(spliced(s, a, ins), a + byte_len(ins)),
        char_index(spliced(s, a, ins), a + byte_len(ins)) == char_index(s, a) + ins.len(),
        byte_len(spliced(s, a, ins)) == byte_len(s) + byte_len(ins),
{
    lemma_boundary_index(s, a);
    let ca = char_index(s, a);
    let t = spliced(s, a, ins);
    assert(t.take(ca) =~= s.take(ca));
    lemma_prefix_pos(s, t, ca);
    assert(t.take(ca + ins.len()) =~= s.take(ca) + ins);
    lemma_encode_concat(s.take(ca), ins);
    lemma_boundary_at(t, ca + ins.len());
    lemma_split_bytes(s, ca);
    lemma_encode_concat(s.take(ca) + ins, s.skip(ca));
    assert(t =~= (s.take(ca) + ins) + s.skip(ca));
}

/// Where the boundaries of a cut text lie.
pub proof fn lemma_cut_positions(s: Seq<char>, a: int, b: int)
    requires
        a <= b,
        boundary(s, a),
        boundary(s, b),
    ensures
        boundary(cut(s, a, b), a),
        char_index(cut(s, a, b), a) == char_index(s, a),
        char_index(s, a) <= char_index(s, b),
        byte_len(cut(s, a, b)) == byte_len(s) - (b - a),
{
    lemma_boundary_index(s, a);
    lemma_boundary_index(s, b);
    let ca = char_index(s, a);
    let cb = char_index(s, b);
    if ca > cb {
        lemma_byte_pos_mono(s, cb, ca);
    }
    let t = cut(s, a, b);
    assert(t.take(ca) =~= s.take(ca));
    lemma_prefix_pos(s, t, ca);
    lemma_split_bytes(s, ca);
    lemma_split_bytes(s, cb);
    lemma_encode_concat(s.take(ca), s.skip(cb));
}

// ── Rounding offsets to boundaries ───────────────────────────────────────────

/// The largest boundary not after `x`.
pub open spec fn floor_boundary(s: Seq<char>, x: int) -> int
    decreases x,
{
    if x <= 0 {
        0
    } else if boundary(s, x) {
        x
    } else {
        floor_boundary(s, x - 1)
    }
}

/// The smallest boundary not before `x`, capped at the text's length.
pub open spec fn ceil_boundary(s: Seq<char>, x: int) -> int
    decreases byte_len(s) - x,
{
    if x >= byte_len(s) {
        byte_len(s) as int
    } else if boundary(s, x) {
        x
    } else {
        ceil_boundary(s, x + 1)
    }
}

pub proof fn lemma_floor_boundary(s: Seq<char>, x: int)
    ensures
        boundary(s, floor_boundary(s, x)),
        x >= 0 ==> floor_boundary(s, x) <= x,
    decreases x,
{
    if x <= 0 {
        assert(is_char_boundary(text_bytes(s), 0));
    } else if !boundary(s, x) {
        lemma_floor_boundary(s, x - 1);
    }
}

pub proof fn lemma_ceil_boundary(s: Seq<char>, x: int)
    ensures
        boundary(s, ceil_boundary(s, x)),
        ceil_boundary(s, x) <= byte_len(s),
        x <= byte_len(s) ==> x <= ceil_boundary(s, x),
    decreases byte_len(s) - x,
{
    if x >= byte_len(s) {
        is_char_boundary_start_end_of_seq(text_bytes(s));
    } else if !boundary(s, x) {
        lemma_ceil_boundary(s, x + 1);
    }
}

/// Rounds `x` down to a character boundary.
pub fn floor_char_boundary(s: &str, x: usize) -> (r: usize)
    ensures
        r == floor_boundary(s@, x as int),
{
    let mut i = x;
    while i > 0 && !s.is_char_boundary(i)
        invariant
            i <= x,
            floor_boundary(s@, x as int) == floor_boundary(s@, i as int),
        decreases i,
    {
        i -= 1;
    }
    i
}

/// Rounds `idx`, capped at the text's length, up to a character boundary.
pub fn next_char_boundary_local(s: &str, idx: usize) -> (r: usize)
    ensures
        r == ceil_boundary(s@, idx as int),
{
    let len = str_byte_len(s);
    let mut i = if idx < len { idx } else { len };
    while i < len && !s.is_char_boundary(i)
        invariant
            i <= len,
            len == byte_len(s@),
            ceil_boundary(s@, idx as int) == ceil_boundary(s@, i as int),
        decreases len - i,
    {
        i += 1;
    }
    i
}

// ── Replacing text ───────────────────────────────────────────────────────────

/// `s` with every match of the non-empty `pat`, found left to right without
/// overlap, replaced by `rep`.
pub open spec fn replace_all(s: Seq<char>, pat: Seq<char>, rep: Seq<char>) -> Seq<char>
    decreases s.len(),
{
    if pat.len() == 0 || s.len() < pat.len() {
        s
    } else if s.take(pat.len() as int) == pat {
        rep + replace_all(s.skip(pat.len() as int), pat, rep)
    } else {
        seq![s[0]] + replace_all(s.drop_first(), pat, rep)
    }
}

/// Calls `str::replace`, which std documents as replacing all matches of the
/// pattern with the replacement; matches of a string pattern are found from
/// the left and do not overlap.
#[verifier::external_body]
pub(crate) fn str_replace(s: &str, pat: &str, rep: &str) -> (r: String)
    requires
        pat@.len() > 0,
    ensures
        r@ == replace_all(s@, pat@, rep@),
{
    s.replace(pat, rep)
}

/// The decimal digit `d`.
pub open spec fn digit_char(d: nat) -> char {
    (48 + d) as char
}

/// The decimal representation of `n`, without sign or leading zeros.
pub open spec fn decimal(n: nat) -> Seq<char>
    decreases n,
{
    if n < 10 {
        seq![digit_char(n)]
    } else {
        decimal(n / 10).push(digit_char(n % 10))
    }
}

/// Calls `usize::to_string`, whose `Display` impl std documents as the
/// number's decimal representation.
#[verifier::external_body]
pub(crate) fn usize_to_decimal(n: usize) -> (r: String)
    ensures
        r@ == decimal(n as nat),
{
    n.to_string()
}

/// Whether two strings are equal.
pub fn same_text(a: &str, b: &str) -> (r: bool)
    ensures
        r == (a@ == b@),
{
    let ab = a.as_bytes();
    let bb = b.as_bytes();
    if ab.len() != bb.len() {
        return false;
    }
    let n = ab.len();
    for i in 0..n
        invariant
            n == ab@.len(),
            n == bb@.len(),
            ab@ == text_bytes(a@),
            bb@ == text_bytes(b@),
            forall|j: int| 0 <= j < i ==> ab@[j] == bb@[j],
    {
        if ab[i] != bb[i] {
            return false;
        }
    }
    proof {
        assert(text_bytes(a@) =~= text_bytes(b@));
        lemma_bytes_determine(a@, b@);
    }
    true
}

/// The characters of a text, one by one.
pub fn chars_of(text: &str) -> (r: Vec<char>)
    ensures
        r@ == text@,
{
    let ghost s = text@;
    let len = str_byte_len(text);
    let mut out: Vec<char> = Vec::new();
    let mut i: usize = 0;
    let ghost mut j: int = 0;
    proof {
        lemma_byte_pos_mono(s, 0, s.len() as int);
    }
    while i < len
        invariant
            0 <= j <= s.len(),
            s == text@,
            len == byte_len(s),
            i == byte_pos(s, j),
            out@ == s.take(j),
        decreases len - i,
    {
        proof {
            lemma_byte_pos_mono(s, j, s.len() as int);
            lemma_boundary_at(s, j);
        }
        let c = char_at(text, i);
        proof {
            if j >= s.len() {
                assert(false);
            }
        }
        let next = next_char_boundary(text, i);
        out.push(c);
        proof {
            lemma_next_boundary(s, j, next as int);
            assert(s.take(j + 1) =~= s.take(j).push(s[j]));
            j = j + 1;
        }
        i = next;
    }
    proof {
        if j < s.len() {
            lemma_byte_pos_mono(s, j, s.len() as int);
        }
        assert(s.take(j) =~= s);
    }
    out
}

} // verus!
