//! Platform text state of the focused world-space or inline text control.
//!
//! Every offset is a UTF-16 code-unit offset, as platform input handlers
//! report them. The text itself is a sequence of Unicode scalar values; an
//! offset that falls inside a surrogate pair is rounded down to the scalar's
//! start.

use vstd::prelude::*;
use vstd::std_specs::iter::IteratorSpec;

verus! {

// ---------------------------------------------------------------------------
// Mathematical model of UTF-16 offsets
// ---------------------------------------------------------------------------

/// Number of UTF-16 code units of one scalar value: two for the
/// supplementary planes, one for the basic multilingual plane.
pub open spec fn unit_width(c: char) -> nat {
    if (c as u32) >= 0x10000 {
        2
    } else {
        1
    }
}

/// Number of UTF-8 bytes of one scalar value.
pub open spec fn byte_width(c: char) -> nat {
    if (c as u32) < 0x80 {
        1
    } else if (c as u32) < 0x800 {
        2
    } else if (c as u32) < 0x10000 {
        3
    } else {
        4
    }
}

/// UTF-16 length of a text.
pub open spec fn utf16_units(s: Seq<char>) -> nat
    decreases s.len(),
{
    if s.len() == 0 {
        0
    } else {
        utf16_units(s.drop_last()) + unit_width(s.last())
    }
}

/// UTF-8 length of a text.
pub open spec fn utf8_bytes(s: Seq<char>) -> nat
    decreases s.len(),
{
    if s.len() == 0 {
        0
    } else {
        utf8_bytes(s.drop_last()) + byte_width(s.last())
    }
}

/// UTF-16 offset at which the `k`-th scalar starts.
pub open spec fn prefix_units(s: Seq<char>, k: int) -> nat {
    utf16_units(s.take(k))
}

/// Number of whole scalars that fit in the first `offset` code units: the
/// longest prefix whose UTF-16 length does not exceed `offset`.
pub open spec fn char_floor(s: Seq<char>, offset: int) -> nat
    decreases s.len(),
{
    if s.len() == 0 {
        0
    } else if utf16_units(s) <= offset {
        s.len()
    } else {
        char_floor(s.drop_last(), offset)
    }
}

/// `offset` rounded down to the nearest scalar boundary.
pub open spec fn floor_offset(s: Seq<char>, offset: int) -> nat {
    prefix_units(s, char_floor(s, offset) as int)
}

/// Offsets whose arithmetic stays within `usize`.
pub open spec fn fits(s: Seq<char>) -> bool {
    utf16_units(s) <= usize::MAX
}

/// The last scalar boundary strictly before `focus`, or 0.
pub open spec fn prev_boundary(s: Seq<char>, focus: int) -> nat {
    if focus <= 0 {
        0
    } else {
        prefix_units(s, char_floor(s, focus - 1) as int)
    }
}

/// One more scalar adds its own width, in UTF-16 units and in UTF-8 bytes.
pub proof fn lemma_prefix_step(s: Seq<char>, i: int)
    requires
        0 <= i < s.len(),
    ensures
        prefix_units(s, i + 1) == prefix_units(s, i) + unit_width(s[i]),
        utf8_bytes(s.take(i + 1)) == utf8_bytes(s.take(i)) + byte_width(s[i]),
{
    assert(s.take(i + 1).drop_last() =~= s.take(i));
}

/// The whole text's prefix is the text; the empty prefix has no units.
pub proof fn lemma_prefix_full(s: Seq<char>)
    ensures
        prefix_units(s, s.len() as int) == utf16_units(s),
        prefix_units(s, 0) == 0,
{
    assert(s.take(s.len() as int) =~= s);
    assert(s.take(0) =~= Seq::<char>::empty());
}

/// Scalar boundaries strictly increase.
pub proof fn lemma_prefix_monotone(s: Seq<char>, i: int, j: int)
    requires
        0 <= i <= j <= s.len(),
    ensures
        prefix_units(s, i) <= prefix_units(s, j),
        i < j ==> prefix_units(s, i) < prefix_units(s, j),
    decreases j - i,
{
    if i < j {
        lemma_prefix_monotone(s, i, j - 1);
        lemma_prefix_step(s, j - 1);
    }
}

proof fn lemma_take_take(s: Seq<char>, k: int)
    requires
        0 <= k <= s.len() - 1,
    ensures
        s.drop_last().take(k) == s.take(k),
{
    assert(s.drop_last().take(k) =~= s.take(k));
}

/// `char_floor` is the unique boundary index that `offset` falls on or after
/// and before the next one.
pub proof fn lemma_char_floor(s: Seq<char>, offset: int)
    requires
        offset >= 0,
    ensures
        char_floor(s, offset) <= s.len(),
        prefix_units(s, char_floor(s, offset) as int) <= offset,
        char_floor(s, offset) < s.len() ==> offset < prefix_units(
            s,
            (char_floor(s, offset) + 1) as int,
        ),
    decreases s.len(),
{
    lemma_prefix_full(s);
    if s.len() > 0 && utf16_units(s) > offset {
        let p = s.drop_last();
        lemma_char_floor(p, offset);
        let k = char_floor(p, offset);
        lemma_take_take(s, k as int);
        if k < p.len() {
            lemma_take_take(s, (k + 1) as int);
        } else {
            lemma_prefix_full(p);
        }
    }
}

/// Any scalar index whose span holds `offset` is the one `char_floor` names.
pub proof fn lemma_char_floor_unique(s: Seq<char>, offset: int, k: int)
    requires
        offset >= 0,
        0 <= k <= s.len(),
        prefix_units(s, k) <= offset,
        k < s.len() ==> offset < prefix_units(s, k + 1),
    ensures
        char_floor(s, offset) == k,
{
    lemma_char_floor(s, offset);
    let f = char_floor(s, offset) as int;
    if f < k {
        lemma_prefix_monotone(s, f + 1, k);
    } else if k < f {
        lemma_prefix_monotone(s, k + 1, f);
    }
}

/// Rounding an offset down never moves it past the offset or the text's end.
pub proof fn lemma_floor_offset_bounds(s: Seq<char>, offset: int)
    requires
        offset >= 0,
    ensures
        floor_offset(s, offset) <= offset,
        floor_offset(s, offset) <= utf16_units(s),
{
    lemma_char_floor(s, offset);
    lemma_prefix_full(s);
    lemma_prefix_monotone(s, char_floor(s, offset) as int, s.len() as int);
}

/// A larger offset never rounds to an earlier scalar.
pub proof fn lemma_char_floor_monotone(s: Seq<char>, a: int, b: int)
    requires
        0 <= a <= b,
    ensures
        char_floor(s, a) <= char_floor(s, b),
{
    lemma_char_floor(s, a);
    lemma_char_floor(s, b);
    let fa = char_floor(s, a) as int;
    let fb = char_floor(s, b) as int;
    if fb < fa {
        lemma_prefix_monotone(s, fb + 1, fa);
    }
}

// ---------------------------------------------------------------------------
// Executable helpers
// ---------------------------------------------------------------------------

/// `String::push`: appends the character `c` to `s`; the contract claims
/// that the text afterwards is the old text followed by `c`.
#[verifier::external_body]
pub(crate) fn push_char_to(s: &mut String, c: char)
    ensures
        final(s)@ == old(s)@.push(c),
{
    s.push(c);
}

fn char_units(c: char) -> (r: usize)
    ensures
        r == unit_width(c),
{
    if (c as u32) >= 0x10000 {
        2
    } else {
        1
    }
}

fn char_bytes(c: char) -> (r: usize)
    ensures
        r == byte_width(c),
{
    let v = c as u32;
    if v < 0x80 {
        1
    } else if v < 0x800 {
        2
    } else if v < 0x10000 {
        3
    } else {
        4
    }
}

/// The scalars of `text`, in order.
pub fn text_chars(text: &str) -> (r: Vec<char>)
    ensures
        r@ == text@,
{
    broadcast use vstd::string::axiom_spec_iter;

    let mut out: Vec<char> = Vec::new();
    for c in iter: text.chars()
        invariant
            iter.seq() == text@,
            out@ == iter.seq().take(iter.index() as int),
    {
        let ghost before = out@;
        out.push(c);
        assert(out@ =~= iter.seq().take(iter.index() + 1));
    }
    assert(text@.take(text@.len() as int) =~= text@);
    out
}

/// Append the scalars `chars[lo..hi]` to `out`.
fn push_range(out: &mut String, chars: &Vec<char>, lo: usize, hi: usize)
    requires
        lo <= hi <= chars.len(),
    ensures
        final(out)@ == old(out)@ + chars@.subrange(lo as int, hi as int),
{
    let mut i = lo;
    while i < hi
        invariant
            lo <= i <= hi <= chars.len(),
            out@ == old(out)@ + chars@.subrange(lo as int, i as int),
        decreases hi - i,
    {
        push_char_to(out, chars[i]);
        assert(chars@.subrange(lo as int, i + 1) =~= chars@.subrange(lo as int, i as int).push(
            chars@[i as int],
        ));
        i = i + 1;
    }
}

/// UTF-16 length of a scalar sequence.
fn units_of(chars: &Vec<char>) -> (r: usize)
    requires
        fits(chars@),
    ensures
        r == utf16_units(chars@),
{
    let mut total: usize = 0;
    let mut i: usize = 0;
    while i < chars.len()
        invariant
            i <= chars.len(),
            total == prefix_units(chars@, i as int),
            fits(chars@),
        decreases chars.len() - i,
    {
        proof {
            lemma_prefix_step(chars@, i as int);
            lemma_prefix_monotone(chars@, i + 1, chars.len() as int);
            lemma_prefix_full(chars@);
        }
        total = total + char_units(chars[i]);
        i = i + 1;
    }
    proof {
        lemma_prefix_full(chars@);
    }
    total
}

/// Number of UTF-16 code units of `text`.
pub fn utf16_len(text: &str) -> (r: usize)
    requires
        fits(text@),
    ensures
        r == utf16_units(text@),
{
    let chars = text_chars(text);
    units_of(&chars)
}

/// Scalar index and scalar-aligned UTF-16 offset for `offset`, rounded down.
pub fn utf16_to_index(chars: &Vec<char>, offset: usize) -> (r: (usize, usize))
    requires
        fits(chars@),
    ensures
        r.0 == char_floor(chars@, offset as int),
        r.1 == prefix_units(chars@, r.0 as int),
{
    let mut units: usize = 0;
    let mut i: usize = 0;
    while i < chars.len()
        invariant
            i <= chars.len(),
            units == prefix_units(chars@, i as int),
            units <= offset,
            fits(chars@),
        decreases chars.len() - i,
    {
        proof {
            lemma_prefix_step(chars@, i as int);
            lemma_prefix_monotone(chars@, i + 1, chars.len() as int);
            lemma_prefix_full(chars@);
        }
        let next = units + char_units(chars[i]);
        if offset < next {
            proof {
                lemma_char_floor_unique(chars@, offset as int, i as int);
            }
            return (i, units);
        }
        units = next;
        i = i + 1;
    }
    proof {
        lemma_char_floor_unique(chars@, offset as int, i as int);
    }
    (i, units)
}

/// UTF-8 byte offset and UTF-16 offset of the scalar that `offset` falls in.
pub fn utf16_to_byte(text: &str, offset: usize) -> (r: (usize, usize))
    requires
        fits(text@),
        utf8_bytes(text@) <= usize::MAX,
    ensures
        r.0 == utf8_bytes(text@.take(char_floor(text@, offset as int) as int)),
        r.1 == floor_offset(text@, offset as int),
{
    let chars = text_chars(text);
    let (k, units) = utf16_to_index(&chars, offset);
    proof {
        lemma_char_floor(chars@, offset as int);
    }
    let mut bytes: usize = 0;
    let mut i: usize = 0;
    while i < k
        invariant
            k <= chars.len(),
            i <= k,
            chars@ == text@,
            bytes == utf8_bytes(chars@.take(i as int)),
            utf8_bytes(text@) <= usize::MAX,
        decreases k - i,
    {
        proof {
            lemma_prefix_step(chars@, i as int);
            lemma_bytes_monotone(chars@, i + 1, chars.len() as int);
            assert(chars@.take(chars.len() as int) =~= chars@);
        }
        bytes = bytes + char_bytes(chars[i]);
        i = i + 1;
    }
    (bytes, units)
}

proof fn lemma_bytes_monotone(s: Seq<char>, i: int, j: int)
    requires
        0 <= i <= j <= s.len(),
    ensures
        utf8_bytes(s.take(i)) <= utf8_bytes(s.take(j)),
    decreases j - i,
{
    if i < j {
        lemma_bytes_monotone(s, i, j - 1);
        lemma_prefix_step(s, j - 1);
    }
}

/// Every scalar boundary of `text` as a UTF-16 offset, starting with 0.
pub fn text_boundaries(text: &str) -> (r: Vec<usize>)
    requires
        fits(text@),
    ensures
        r.len() == text@.len() + 1,
        forall|i: int| 0 <= i < r.len() ==> #[trigger] r@[i] == prefix_units(text@, i),
{
    let chars = text_chars(text);
    let mut boundaries: Vec<usize> = Vec::new();
    boundaries.push(0);
    proof {
        lemma_prefix_full(chars@);
    }
    let mut offset: usize = 0;
    let mut i: usize = 0;
    while i < chars.len()
        invariant
            i <= chars.len(),
            chars@ == text@,
            fits(chars@),
            offset == prefix_units(chars@, i as int),
            boundaries.len() == i + 1,
            forall|j: int| 0 <= j < boundaries.len() ==> #[trigger] boundaries@[j] == prefix_units(
                chars@,
                j,
            ),
        decreases chars.len() - i,
    {
        proof {
            lemma_prefix_step(chars@, i as int);
            lemma_prefix_monotone(chars@, i + 1, chars.len() as int);
            lemma_prefix_full(chars@);
        }
        offset = offset + char_units(chars[i]);
        boundaries.push(offset);
        i = i + 1;
    }
    boundaries
}

} // verus!

verus! {

// ---------------------------------------------------------------------------
// The text state and its mathematical view
// ---------------------------------------------------------------------------

/// The mathematical content of a text state: the text, the selection as a
/// pair of UTF-16 offsets, which end is the focus, and the marked
/// (composition) range.
pub ghost struct TextView {
    pub text: Seq<char>,
    pub start: int,
    pub end: int,
    pub reversed: bool,
    pub marked: Option<(int, int)>,
}

/// Platform text state for the focused text control. All offsets are UTF-16
/// code-unit offsets.
#[derive(Debug, PartialEq, Eq)]
pub struct WorldTextInputState {
    pub text: String,
    pub selection: std::ops::Range<usize>,
    pub selection_reversed: bool,
    pub marked: Option<std::ops::Range<usize>>,
}

pub open spec fn range_pair(r: std::ops::Range<usize>) -> (int, int) {
    (r.start as int, r.end as int)
}

pub open spec fn opt_range_pair(r: Option<std::ops::Range<usize>>) -> Option<(int, int)> {
    match r {
        Some(m) => Some(range_pair(m)),
        None => None,
    }
}

impl View for WorldTextInputState {
    type V = TextView;

    open spec fn view(&self) -> TextView {
        TextView {
            text: self.text@,
            start: self.selection.start as int,
            end: self.selection.end as int,
            reversed: self.selection_reversed,
            marked: opt_range_pair(self.marked),
        }
    }
}

pub open spec fn min_int(a: int, b: int) -> int {
    if a <= b {
        a
    } else {
        b
    }
}

pub open spec fn max_int(a: int, b: int) -> int {
    if a >= b {
        a
    } else {
        b
    }
}

/// A state is well formed when both ranges are ordered and lie in the text.
pub open spec fn well_formed(v: TextView) -> bool {
    &&& 0 <= v.start <= v.end <= utf16_units(v.text)
    &&& match v.marked {
        Some((a, b)) => 0 <= a <= b <= utf16_units(v.text),
        None => true,
    }
}

/// No offset is negative, as for every state built from machine offsets.
pub open spec fn nonneg(v: TextView) -> bool {
    &&& v.start >= 0
    &&& v.end >= 0
    &&& match v.marked {
        Some((a, b)) => a >= 0 && b >= 0,
        None => true,
    }
}

/// Clamp both ranges into the text and order them; swapping the selection's
/// ends flips which end is the focus.
pub open spec fn clamp_view(v: TextView) -> TextView {
    let len = utf16_units(v.text) as int;
    let s = min_int(v.start, len);
    let e = min_int(v.end, len);
    TextView {
        text: v.text,
        start: if s > e { e } else { s },
        end: if s > e { s } else { e },
        reversed: if s > e { !v.reversed } else { v.reversed },
        marked: match v.marked {
            Some((a, b)) => {
                let a1 = min_int(a, len);
                let b1 = min_int(b, len);
                Some(if a1 > b1 { (b1, a1) } else { (a1, b1) })
            },
            None => None,
        },
    }
}

/// The range a replacement applies to: the explicit range, else the marked
/// range, else the selection.
pub open spec fn requested_range(v: TextView, replacement: Option<(int, int)>) -> (int, int) {
    match replacement {
        Some(r) => r,
        None => match v.marked {
            Some(m) => m,
            None => (v.start, v.end),
        },
    }
}

/// Replace the requested range (rounded down to scalar boundaries) by
/// `inserted`. With a marked selection, the inserted text becomes the marked
/// range and the selection is placed relative to it; otherwise the caret
/// follows the inserted text.
pub open spec fn replace_view(
    v: TextView,
    replacement: Option<(int, int)>,
    inserted: Seq<char>,
    marked_selection: Option<(int, int)>,
) -> TextView {
    let req = requested_range(v, replacement);
    let a = char_floor(v.text, req.0) as int;
    let b = char_floor(v.text, max_int(req.1, req.0)) as int;
    let start = prefix_units(v.text, a) as int;
    let n = utf16_units(inserted) as int;
    clamp_view(
        TextView {
            text: v.text.take(a) + inserted + v.text.skip(b),
            start: match marked_selection {
                Some(rel) => start + min_int(rel.0, n),
                None => start + n,
            },
            end: match marked_selection {
                Some(rel) => start + min_int(rel.1, n),
                None => start + n,
            },
            reversed: false,
            marked: match marked_selection {
                Some(_) => Some((start, start + n)),
                None => None,
            },
        },
    )
}

/// Collapse the selection at `target`, or extend it from its anchor (the end
/// that is not the focus) to `target`.
pub open spec fn move_selection_view(v: TextView, target: int, extend: bool) -> TextView {
    let t = min_int(target, utf16_units(v.text) as int);
    let anchor = if v.reversed { v.end } else { v.start };
    if !extend {
        TextView { text: v.text, start: t, end: t, reversed: false, marked: v.marked }
    } else {
        TextView {
            text: v.text,
            start: min_int(anchor, t),
            end: max_int(anchor, t),
            reversed: t < anchor,
            marked: v.marked,
        }
    }
}

/// The selection end that moves with the cursor.
pub open spec fn focus_of(v: TextView) -> int {
    if v.reversed {
        v.start
    } else {
        v.end
    }
}

/// Arrow-key movement by one scalar. Without `extend`, a non-empty selection
/// collapses onto its side in the direction of travel.
pub open spec fn move_cursor_view(v: TextView, forward: bool, extend: bool) -> TextView {
    if !extend && v.start < v.end {
        move_selection_view(v, if forward { v.end } else { v.start }, false)
    } else {
        let focus = focus_of(v);
        let target = if forward {
            next_boundary_or(v.text, focus, utf16_units(v.text) as int)
        } else {
            prev_boundary(v.text, focus) as int
        };
        move_selection_view(v, target, extend)
    }
}

/// The first scalar boundary strictly after `focus`, or `fallback` when there
/// is none.
pub open spec fn next_boundary_or(s: Seq<char>, focus: int, fallback: int) -> int {
    let k = char_floor(s, focus);
    if k < s.len() {
        prefix_units(s, (k + 1) as int) as int
    } else {
        fallback
    }
}

/// The text of a non-empty selection.
pub open spec fn selected_view(v: TextView) -> Option<Seq<char>> {
    if v.start < v.end {
        Some(v.text.subrange(char_floor(v.text, v.start) as int, char_floor(v.text, v.end) as int))
    } else {
        None
    }
}

/// The caret glyph drawn into inline editors.
pub open spec fn caret() -> char {
    '\u{258F}'
}

pub open spec fn with_caret_view(v: TextView) -> Seq<char> {
    let k = char_floor(v.text, focus_of(v)) as int;
    v.text.take(k) + seq![caret()] + v.text.skip(k)
}

// ---------------------------------------------------------------------------
// Laws of the model
// ---------------------------------------------------------------------------

proof fn lemma_units_concat(x: Seq<char>, y: Seq<char>)
    ensures
        utf16_units(x + y) == utf16_units(x) + utf16_units(y),
    decreases y.len(),
{
    if y.len() == 0 {
        assert(x + y =~= x);
    } else {
        lemma_units_concat(x, y.drop_last());
        assert((x + y).drop_last() =~= x + y.drop_last());
    }
}

proof fn lemma_units_split(s: Seq<char>, k: int)
    requires
        0 <= k <= s.len(),
    ensures
        utf16_units(s) == utf16_units(s.take(k)) + utf16_units(s.skip(k)),
{
    lemma_units_concat(s.take(k), s.skip(k));
    assert(s.take(k) + s.skip(k) =~= s);
}

/// Clamping always yields a well-formed state and keeps the text.
pub proof fn lemma_clamp_well_formed(v: TextView)
    requires
        nonneg(v),
    ensures
        well_formed(clamp_view(v)),
        clamp_view(v).text == v.text,
{
}

/// Clamping a well-formed state changes nothing.
pub proof fn lemma_clamp_identity(v: TextView)
    requires
        well_formed(v),
    ensures
        clamp_view(v) == v,
{
}

/// Clamping twice is clamping once.
pub proof fn lemma_clamp_idempotent(v: TextView)
    ensures
        clamp_view(clamp_view(v)) == clamp_view(v),
{
}

/// A replacement keeps the text before the rounded-down start and after the
/// rounded-down end, puts the inserted text between them, and leaves the state
/// well formed; a plain replacement leaves the caret right after the inserted
/// text and clears any composition.
pub proof fn lemma_replace_shape(
    v: TextView,
    replacement: Option<(int, int)>,
    inserted: Seq<char>,
    marked_selection: Option<(int, int)>,
)
    requires
        requested_range(v, replacement).0 >= 0,
        requested_range(v, replacement).1 >= 0,
        match marked_selection {
            Some(rel) => rel.0 >= 0 && rel.1 >= 0,
            None => true,
        },
    ensures
        ({
            let req = requested_range(v, replacement);
            let a = char_floor(v.text, req.0) as int;
            let b = char_floor(v.text, max_int(req.1, req.0)) as int;
            let r = replace_view(v, replacement, inserted, marked_selection);
            &&& a <= b <= v.text.len()
            &&& r.text == v.text.take(a) + inserted + v.text.skip(b)
            &&& well_formed(r)
            &&& utf16_units(r.text) == utf16_units(v.text.take(a)) + utf16_units(inserted)
                + utf16_units(v.text.skip(b))
            &&& marked_selection is None ==> r.marked is None && r.start == r.end
                == prefix_units(v.text, a) + utf16_units(inserted) && !r.reversed
        }),
{
    let req = requested_range(v, replacement);
    lemma_char_floor(v.text, req.0);
    lemma_char_floor(v.text, max_int(req.1, req.0));
    lemma_char_floor_monotone(v.text, req.0, max_int(req.1, req.0));
    let a = char_floor(v.text, req.0) as int;
    let b = char_floor(v.text, max_int(req.1, req.0)) as int;
    let t = v.text.take(a) + inserted + v.text.skip(b);
    lemma_units_concat(v.text.take(a) + inserted, v.text.skip(b));
    lemma_units_concat(v.text.take(a), inserted);
    let start = prefix_units(v.text, a) as int;
    let n = utf16_units(inserted) as int;
    lemma_clamp_well_formed(
        TextView {
            text: t,
            start: match marked_selection {
                Some(rel) => start + min_int(rel.0, n),
                None => start + n,
            },
            end: match marked_selection {
                Some(rel) => start + min_int(rel.1, n),
                None => start + n,
            },
            reversed: false,
            marked: match marked_selection {
                Some(_) => Some((start, start + n)),
                None => None,
            },
        },
    );
    if marked_selection is None {
        let start = prefix_units(v.text, a) as int;
        let n = utf16_units(inserted) as int;
        let pre = TextView {
            text: t,
            start: start + n,
            end: start + n,
            reversed: false,
            marked: None,
        };
        assert(well_formed(pre));
        lemma_clamp_identity(pre);
    }
}

/// Moving the selection keeps the text and the composition, and a state that
/// was well formed stays so.
pub proof fn lemma_move_selection_well_formed(v: TextView, target: int, extend: bool)
    requires
        well_formed(v),
        target >= 0,
    ensures
        well_formed(move_selection_view(v, target, extend)),
        move_selection_view(v, target, extend).text == v.text,
        move_selection_view(v, target, extend).marked == v.marked,
{
}

/// The forward cursor target is the least scalar boundary past the focus.
pub proof fn lemma_next_boundary_is_least(s: Seq<char>, focus: int, j: int)
    requires
        focus >= 0,
        0 <= j <= s.len(),
        prefix_units(s, j) > focus,
    ensures
        next_boundary_or(s, focus, utf16_units(s) as int) > focus,
        next_boundary_or(s, focus, utf16_units(s) as int) <= prefix_units(s, j),
{
    lemma_char_floor(s, focus);
    let k = char_floor(s, focus) as int;
    if k >= s.len() {
        lemma_prefix_monotone(s, j, s.len() as int);
    } else if k + 1 > j {
        lemma_prefix_monotone(s, j, k);
    } else {
        lemma_prefix_monotone(s, k + 1, j);
    }
}

/// The backward cursor target is the greatest scalar boundary before the
/// focus.
pub proof fn lemma_prev_boundary_is_greatest(s: Seq<char>, focus: int, j: int)
    requires
        focus > 0,
        0 <= j <= s.len(),
        prefix_units(s, j) < focus,
    ensures
        prev_boundary(s, focus) < focus,
        prefix_units(s, j) <= prev_boundary(s, focus),
{
    lemma_char_floor(s, focus - 1);
    let k = char_floor(s, focus - 1) as int;
    if j > k {
        lemma_prefix_monotone(s, k + 1, j);
    } else {
        lemma_prefix_monotone(s, j, k);
    }
}

// ---------------------------------------------------------------------------
// Executable operations
// ---------------------------------------------------------------------------

fn min_usize(a: usize, b: usize) -> (r: usize)
    ensures
        r == min_int(a as int, b as int),
{
    if a <= b {
        a
    } else {
        b
    }
}

fn copy_range(r: &std::ops::Range<usize>) -> (c: std::ops::Range<usize>)
    ensures
        c.start == r.start,
        c.end == r.end,
{
    std::ops::Range { start: r.start, end: r.end }
}

impl Clone for WorldTextInputState {
    fn clone(&self) -> (r: Self)
        ensures
            r@ == self@,
    {
        WorldTextInputState {
            text: self.text.clone(),
            selection: copy_range(&self.selection),
            selection_reversed: self.selection_reversed,
            marked: match &self.marked {
                Some(m) => Some(copy_range(m)),
                None => None,
            },
        }
    }
}

impl WorldTextInputState {
    /// A field holding `text` with the given selection, not reversed and
    /// with no composition.
    pub fn new(text: String, selection: std::ops::Range<usize>) -> (r: Self)
        ensures
            r@ == (TextView {
                text: text@,
                start: selection.start as int,
                end: selection.end as int,
                reversed: false,
                marked: None,
            }),
    {
        WorldTextInputState { text, selection, selection_reversed: false, marked: None }
    }

    /// An empty selection at the end of `text`.
    pub fn at_end(text: String) -> (r: Self)
        requires
            fits(text@),
        ensures
            r@ == (TextView {
                text: text@,
                start: utf16_units(text@) as int,
                end: utf16_units(text@) as int,
                reversed: false,
                marked: None,
            }),
    {
        let end = utf16_len(text.as_str());
        WorldTextInputState::new(text, std::ops::Range { start: end, end: end })
    }
}

/// Clamp the selection and the marked range into the text.
pub fn clamp_world_text_state(state: &mut WorldTextInputState)
    requires
        fits(old(state).text@),
    ensures
        final(state)@ == clamp_view(old(state)@),
{
    let len = utf16_len(state.text.as_str());
    let s = min_usize(state.selection.start, len);
    let e = min_usize(state.selection.end, len);
    if s > e {
        state.selection = std::ops::Range { start: e, end: s };
        state.selection_reversed = !state.selection_reversed;
    } else {
        state.selection = std::ops::Range { start: s, end: e };
    }
    let marked = match &state.marked {
        Some(m) => {
            let a = min_usize(m.start, len);
            let b = min_usize(m.end, len);
            if a > b {
                Some(std::ops::Range { start: b, end: a })
            } else {
                Some(std::ops::Range { start: a, end: b })
            }
        },
        None => None,
    };
    state.marked = marked;
}

/// Replace the requested range of the text by `text`; see [`replace_view`].
pub fn replace_text_state(
    state: &mut WorldTextInputState,
    replacement: Option<std::ops::Range<usize>>,
    text: &str,
    marked_selection: Option<std::ops::Range<usize>>,
)
    requires
        utf16_units(old(state).text@) + utf16_units(text@) <= usize::MAX,
    ensures
        final(state)@ == replace_view(
            old(state)@,
            opt_range_pair(replacement),
            text@,
            opt_range_pair(marked_selection),
        ),
{
    let ghost v = state@;
    let requested = match replacement {
        Some(r) => r,
        None => match &state.marked {
            Some(m) => copy_range(m),
            None => copy_range(&state.selection),
        },
    };
    let chars = text_chars(state.text.as_str());
    let (a, start) = utf16_to_index(&chars, requested.start);
    let end_offset = if requested.end >= requested.start {
        requested.end
    } else {
        requested.start
    };
    let (b, _) = utf16_to_index(&chars, end_offset);
    proof {
        lemma_char_floor(chars@, requested.start as int);
        lemma_char_floor(chars@, end_offset as int);
        lemma_char_floor_monotone(chars@, requested.start as int, end_offset as int);
    }
    let inserted_chars = text_chars(text);
    let mut out = String::new();
    push_range(&mut out, &chars, 0, a);
    push_range(&mut out, &inserted_chars, 0, inserted_chars.len());
    push_range(&mut out, &chars, b, chars.len());
    proof {
        assert(chars@.subrange(0, a as int) =~= chars@.take(a as int));
        assert(inserted_chars@.subrange(0, inserted_chars@.len() as int) =~= inserted_chars@);
        assert(chars@.subrange(b as int, chars@.len() as int) =~= chars@.skip(b as int));
        assert(out@ =~= chars@.take(a as int) + text@ + chars@.skip(b as int));
        lemma_units_concat(chars@.take(a as int) + text@, chars@.skip(b as int));
        lemma_units_concat(chars@.take(a as int), text@);
        lemma_units_split(chars@, b as int);
        lemma_units_split(chars@, a as int);
        lemma_prefix_monotone(chars@, a as int, b as int);
    }
    let n = units_of(&inserted_chars);
    state.text = out;
    match marked_selection {
        Some(rel) => {
            state.marked = Some(std::ops::Range { start: start, end: start + n });
            state.selection = std::ops::Range {
                start: start + min_usize(rel.start, n),
                end: start + min_usize(rel.end, n),
            };
        },
        None => {
            state.marked = None;
            state.selection = std::ops::Range { start: start + n, end: start + n };
        },
    }
    state.selection_reversed = false;
    clamp_world_text_state(state);
}

/// Collapse the selection at `target` or extend it from its anchor.
pub fn move_text_selection(state: &mut WorldTextInputState, target: usize, extend: bool)
    requires
        fits(old(state).text@),
    ensures
        final(state)@ == move_selection_view(old(state)@, target as int, extend),
{
    let len = utf16_len(state.text.as_str());
    let target = min_usize(target, len);
    if !extend {
        state.selection = std::ops::Range { start: target, end: target };
        state.selection_reversed = false;
        return ;
    }
    let anchor = if state.selection_reversed {
        state.selection.end
    } else {
        state.selection.start
    };
    let lo = min_usize(anchor, target);
    let hi = if anchor >= target {
        anchor
    } else {
        target
    };
    state.selection = std::ops::Range { start: lo, end: hi };
    state.selection_reversed = target < anchor;
}

/// The first scalar boundary after `focus`, or `fallback`.
fn next_boundary_exec(chars: &Vec<char>, focus: usize, fallback: usize) -> (r: usize)
    requires
        fits(chars@),
    ensures
        r == next_boundary_or(chars@, focus as int, fallback as int),
{
    let (k, units) = utf16_to_index(chars, focus);
    if k < chars.len() {
        proof {
            lemma_prefix_step(chars@, k as int);
            lemma_prefix_monotone(chars@, k + 1, chars.len() as int);
            lemma_prefix_full(chars@);
        }
        units + char_units(chars[k])
    } else {
        fallback
    }
}

/// The last scalar boundary before `focus`, or 0.
fn prev_boundary_exec(chars: &Vec<char>, focus: usize) -> (r: usize)
    requires
        fits(chars@),
    ensures
        r == prev_boundary(chars@, focus as int),
{
    if focus == 0 {
        0
    } else {
        let (_, units) = utf16_to_index(chars, focus - 1);
        units
    }
}

/// Move the cursor one scalar backward or forward.
pub fn move_text_cursor(state: &mut WorldTextInputState, forward: bool, extend: bool)
    requires
        fits(old(state).text@),
    ensures
        final(state)@ == move_cursor_view(old(state)@, forward, extend),
{
    let focus = if state.selection_reversed {
        state.selection.start
    } else {
        state.selection.end
    };
    if !extend && state.selection.start < state.selection.end {
        let target = if forward {
            state.selection.end
        } else {
            state.selection.start
        };
        move_text_selection(state, target, false);
        return ;
    }
    let chars = text_chars(state.text.as_str());
    let target = if forward {
        let len = units_of(&chars);
        next_boundary_exec(&chars, focus, len)
    } else {
        prev_boundary_exec(&chars, focus)
    };
    move_text_selection(state, target, extend);
}

/// The selected text, or `None` for an empty selection.
pub fn selected_text(state: &WorldTextInputState) -> (r: Option<String>)
    requires
        fits(state.text@),
    ensures
        match selected_view(state@) {
            Some(t) => r is Some && r->0@ == t,
            None => r is None,
        },
{
    if !(state.selection.start < state.selection.end) {
        return None;
    }
    let chars = text_chars(state.text.as_str());
    let (a, _) = utf16_to_index(&chars, state.selection.start);
    let (b, _) = utf16_to_index(&chars, state.selection.end);
    proof {
        lemma_char_floor(chars@, state.selection.start as int);
        lemma_char_floor(chars@, state.selection.end as int);
        lemma_char_floor_monotone(chars@, state.selection.start as int, state.selection.end as int);
    }
    let mut out = String::new();
    push_range(&mut out, &chars, a, b);
    proof {
        assert(out@ =~= chars@.subrange(a as int, b as int));
    }
    Some(out)
}

/// The text with a caret glyph inserted at the focus.
pub fn text_with_caret(state: &WorldTextInputState) -> (r: String)
    requires
        fits(state.text@),
    ensures
        r@ == with_caret_view(state@),
{
    let focus = if state.selection_reversed {
        state.selection.start
    } else {
        state.selection.end
    };
    let chars = text_chars(state.text.as_str());
    let (k, _) = utf16_to_index(&chars, focus);
    proof {
        lemma_char_floor(chars@, focus as int);
    }
    let mut out = String::new();
    push_range(&mut out, &chars, 0, k);
    push_char_to(&mut out, '\u{258F}');
    push_range(&mut out, &chars, k, chars.len());
    proof {
        assert(out@ =~= chars@.take(k as int) + seq![caret()] + chars@.skip(k as int));
    }
    out
}

/// The text of `range` rounded down to scalar boundaries, and the range that
/// was actually read.
pub fn text_for_range(state: &WorldTextInputState, range: std::ops::Range<usize>) -> (r: (
    String,
    std::ops::Range<usize>,
))
    requires
        fits(state.text@),
    ensures
        ({
            let a = char_floor(state.text@, range.start as int) as int;
            let b = char_floor(
                state.text@,
                max_int(range.end as int, range.start as int),
            ) as int;
            &&& r.0@ == state.text@.subrange(a, b)
            &&& r.1.start == prefix_units(state.text@, a)
            &&& r.1.end == prefix_units(state.text@, b)
        }),
{
    let chars = text_chars(state.text.as_str());
    let (a, start) = utf16_to_index(&chars, range.start);
    let end_offset = if range.end >= range.start {
        range.end
    } else {
        range.start
    };
    let (b, end) = utf16_to_index(&chars, end_offset);
    proof {
        lemma_char_floor(chars@, range.start as int);
        lemma_char_floor(chars@, end_offset as int);
        lemma_char_floor_monotone(chars@, range.start as int, end_offset as int);
    }
    let mut out = String::new();
    push_range(&mut out, &chars, a, b);
    proof {
        assert(out@ =~= chars@.subrange(a as int, b as int));
    }
    (out, std::ops::Range { start, end })
}

} // verus!

verus! {

// ---------------------------------------------------------------------------
// Keyboard editing of inline text fields
// ---------------------------------------------------------------------------

/// Control characters (general category Cc): the C0 and C1 codes and DEL.
pub open spec fn is_control(c: char) -> bool {
    (c as u32) <= 0x1f || (0x7f <= (c as u32) && (c as u32) <= 0x9f)
}

pub open spec fn has_control(s: Seq<char>) -> bool {
    exists|i: int| 0 <= i < s.len() && is_control(#[trigger] s[i])
}

/// Typed text that an inline editor accepts as literal input.
pub open spec fn insertable(s: Seq<char>) -> bool {
    s.len() > 0 && !has_control(s)
}

/// What a key press does to an inline text field: whether the editor
/// handled it, and the resulting state. `paste` is the clipboard text read
/// for a paste; copying (and the copy half of a cut) is the caller's part.
pub open spec fn edit_key_view(
    v: TextView,
    key: Seq<char>,
    character: Option<Seq<char>>,
    command: bool,
    shift: bool,
    paste: Option<Seq<char>>,
) -> (bool, TextView) {
    let len = utf16_units(v.text) as int;
    if command && key == "c"@ {
        (true, v)
    } else if key == "left"@ {
        (true, move_cursor_view(v, false, shift))
    } else if key == "right"@ {
        (true, move_cursor_view(v, true, shift))
    } else if key == "home"@ {
        (true, move_selection_view(v, 0, shift))
    } else if key == "end"@ {
        (true, move_selection_view(v, len, shift))
    } else if key == "backspace"@ {
        let range = if v.start >= v.end {
            (prev_boundary(v.text, v.end) as int, v.end)
        } else {
            (v.start, v.end)
        };
        (true, replace_view(v, Some(range), Seq::<char>::empty(), None))
    } else if key == "delete"@ {
        let range = if v.start >= v.end {
            (v.end, next_boundary_or(v.text, v.end, v.end))
        } else {
            (v.start, v.end)
        };
        (true, replace_view(v, Some(range), Seq::<char>::empty(), None))
    } else if command && key == "a"@ {
        (
            true,
            TextView { text: v.text, start: 0, end: len, reversed: false, marked: v.marked },
        )
    } else if command && key == "v"@ {
        match paste {
            Some(p) => (true, replace_view(v, None, p, None)),
            None => (true, v),
        }
    } else if command && key == "x"@ {
        (true, replace_view(v, None, Seq::<char>::empty(), None))
    } else if !command {
        match character {
            Some(c) => if insertable(c) {
                (true, replace_view(v, None, c, None))
            } else {
                (false, v)
            },
            None => (false, v),
        }
    } else {
        (false, v)
    }
}

/// Deleting a selection: the text keeps what lies before the selection's
/// start and after its end (both rounded down to scalar boundaries), and
/// the caret sits where the selection started.
pub open spec fn selection_deleted(v: TextView) -> TextView {
    let a = char_floor(v.text, v.start) as int;
    let b = char_floor(v.text, v.end) as int;
    let p = prefix_units(v.text, a) as int;
    TextView { text: v.text.take(a) + v.text.skip(b), start: p, end: p, reversed: false, marked: None }
}

/// Replacing a selection in an unmarked field by `c`: the text keeps what
/// lies before and after the selection with `c` between, and the caret
/// follows `c`.
pub open spec fn selection_replaced(v: TextView, c: Seq<char>) -> TextView {
    let a = char_floor(v.text, v.start) as int;
    let b = char_floor(v.text, v.end) as int;
    let p = prefix_units(v.text, a) as int + utf16_units(c) as int;
    TextView { text: v.text.take(a) + c + v.text.skip(b), start: p, end: p, reversed: false, marked: None }
}

/// Replacing the range `(start, end)` of a well-formed state by `inserted`,
/// with no marked selection to place, is cutting the range out and putting
/// `inserted` in its place, with the caret after it.
proof fn lemma_replace_range(v: TextView, start: int, end: int, inserted: Seq<char>)
    requires
        well_formed(v),
        0 <= start <= end <= utf16_units(v.text),
    ensures
        ({
            let a = char_floor(v.text, start) as int;
            let b = char_floor(v.text, end) as int;
            let p = prefix_units(v.text, a) as int + utf16_units(inserted) as int;
            replace_view(v, Some((start, end)), inserted, None) == TextView {
                text: v.text.take(a) + inserted + v.text.skip(b),
                start: p,
                end: p,
                reversed: false,
                marked: None,
            }
        }),
{
    let a = char_floor(v.text, start) as int;
    let b = char_floor(v.text, end) as int;
    lemma_char_floor(v.text, start);
    lemma_char_floor(v.text, end);
    lemma_char_floor_monotone(v.text, start, end);
    assert(max_int(end, start) == end);
    let t = v.text.take(a) + inserted + v.text.skip(b);
    lemma_units_concat(v.text.take(a) + inserted, v.text.skip(b));
    lemma_units_concat(v.text.take(a), inserted);
}

/// Backspace or Delete on a selection removes exactly the selected text,
/// whatever the modifiers, and leaves the caret where the selection began.
pub proof fn lemma_delete_keys_remove_the_selection(
    v: TextView,
    character: Option<Seq<char>>,
    command: bool,
    shift: bool,
    paste: Option<Seq<char>>,
)
    requires
        well_formed(v),
        v.start < v.end,
    ensures
        edit_key_view(v, "backspace"@, character, command, shift, paste) == (true, selection_deleted(v)),
        edit_key_view(v, "delete"@, character, command, shift, paste) == (true, selection_deleted(v)),
        selection_deleted(v).text == v.text.take(char_floor(v.text, v.start) as int) + v.text.skip(
            char_floor(v.text, v.end) as int,
        ),
        selection_deleted(v).start == selection_deleted(v).end,
        selection_deleted(v).start == floor_offset(v.text, v.start),
{
    reveal_strlit("backspace");
    reveal_strlit("delete");
    reveal_strlit("c");
    reveal_strlit("left");
    reveal_strlit("right");
    reveal_strlit("home");
    reveal_strlit("end");
    assert("backspace"@.len() == 9 && "delete"@.len() == 6 && "c"@.len() == 1);
    assert("left"@.len() == 4 && "right"@.len() == 5 && "home"@.len() == 4 && "end"@.len() == 3);
    assert("backspace"@ != "c"@ && "backspace"@ != "left"@ && "backspace"@ != "right"@);
    assert("backspace"@ != "home"@ && "backspace"@ != "end"@);
    assert("delete"@ != "c"@ && "delete"@ != "left"@ && "delete"@ != "right"@);
    assert("delete"@ != "home"@ && "delete"@ != "end"@ && "delete"@ != "backspace"@);
    lemma_replace_range(v, v.start, v.end, Seq::<char>::empty());
    let a = char_floor(v.text, v.start) as int;
    let b = char_floor(v.text, v.end) as int;
    assert(v.text.take(a) + Seq::<char>::empty() + v.text.skip(b) =~= v.text.take(a) + v.text.skip(b));
}

/// With the caret on the boundary before scalar `k` and nothing selected,
/// Backspace removes exactly the scalar before the caret (none at the
/// start), and Delete exactly the scalar after it (none at the end); the
/// caret stays on the boundary left behind.
pub proof fn lemma_delete_keys_remove_one_scalar(
    v: TextView,
    k: int,
    character: Option<Seq<char>>,
    command: bool,
    shift: bool,
    paste: Option<Seq<char>>,
)
    requires
        well_formed(v),
        0 <= k <= v.text.len(),
        v.start == v.end,
        v.end == prefix_units(v.text, k),
    ensures
        0 < k ==> edit_key_view(v, "backspace"@, character, command, shift, paste) == (
            true,
            TextView {
                text: v.text.take(k - 1) + v.text.skip(k),
                start: prefix_units(v.text, k - 1) as int,
                end: prefix_units(v.text, k - 1) as int,
                reversed: false,
                marked: None,
            },
        ),
        k < v.text.len() ==> edit_key_view(v, "delete"@, character, command, shift, paste) == (
            true,
            TextView {
                text: v.text.take(k) + v.text.skip(k + 1),
                start: v.end,
                end: v.end,
                reversed: false,
                marked: None,
            },
        ),
{
    reveal_strlit("backspace");
    reveal_strlit("delete");
    reveal_strlit("c");
    reveal_strlit("left");
    reveal_strlit("right");
    reveal_strlit("home");
    reveal_strlit("end");
    assert("backspace"@.len() == 9 && "delete"@.len() == 6 && "c"@.len() == 1);
    assert("left"@.len() == 4 && "right"@.len() == 5 && "home"@.len() == 4 && "end"@.len() == 3);
    assert("backspace"@ != "c"@ && "backspace"@ != "left"@ && "backspace"@ != "right"@);
    assert("backspace"@ != "home"@ && "backspace"@ != "end"@);
    assert("delete"@ != "c"@ && "delete"@ != "left"@ && "delete"@ != "right"@);
    assert("delete"@ != "home"@ && "delete"@ != "end"@ && "delete"@ != "backspace"@);
    let s = v.text;
    lemma_prefix_full(s);
    lemma_prefix_monotone(s, k, s.len() as int);
    if k < s.len() {
        lemma_prefix_monotone(s, k, k + 1);
        lemma_prefix_monotone(s, k + 1, s.len() as int);
    }
    lemma_char_floor_unique(s, v.end, k);
    if 0 < k {
        lemma_prefix_monotone(s, k - 1, k);
        let pb = prefix_units(s, k - 1) as int;
        lemma_char_floor_unique(s, v.end - 1, k - 1);
        assert(prev_boundary(s, v.end) == pb);
        lemma_char_floor_unique(s, pb, k - 1);
        lemma_replace_range(v, pb, v.end, Seq::<char>::empty());
        assert(s.take(k - 1) + Seq::<char>::empty() + s.skip(k) =~= s.take(k - 1) + s.skip(k));
    }
    if k < s.len() {
        let nb = prefix_units(s, k + 1) as int;
        assert(next_boundary_or(s, v.end, v.end) == nb);
        if k + 1 < s.len() {
            lemma_prefix_monotone(s, k + 1, k + 2);
        }
        lemma_char_floor_unique(s, nb, k + 1);
        lemma_replace_range(v, v.end, nb, Seq::<char>::empty());
        assert(s.take(k) + Seq::<char>::empty() + s.skip(k + 1) =~= s.take(k) + s.skip(k + 1));
    }
}

/// Typing a character (no command key held) over a selection of an
/// unmarked field replaces exactly the selected text by it, and the caret
/// follows it.
pub proof fn lemma_typing_replaces_the_selection(
    v: TextView,
    key: Seq<char>,
    c: Seq<char>,
    shift: bool,
    paste: Option<Seq<char>>,
)
    requires
        well_formed(v),
        v.marked is None,
        insertable(c),
        key != "left"@ && key != "right"@ && key != "home"@ && key != "end"@ && key != "backspace"@
            && key != "delete"@,
    ensures
        edit_key_view(v, key, Some(c), false, shift, paste) == (true, selection_replaced(v, c)),
        selection_replaced(v, c).text == v.text.take(char_floor(v.text, v.start) as int) + c
            + v.text.skip(char_floor(v.text, v.end) as int),
{
    lemma_replace_range(v, v.start, v.end, c);
}

/// Equality of two texts.
pub fn str_eq(a: &str, b: &str) -> (r: bool)
    ensures
        r == (a@ == b@),
{
    let x = text_chars(a);
    let y = text_chars(b);
    if x.len() != y.len() {
        return false;
    }
    let mut i: usize = 0;
    while i < x.len()
        invariant
            x@ == a@,
            y@ == b@,
            x.len() == y.len(),
            i <= x.len(),
            forall|j: int| 0 <= j < i ==> x@[j] == y@[j],
        decreases x.len() - i,
    {
        if x[i] != y[i] {
            return false;
        }
        i = i + 1;
    }
    assert(x@ =~= y@);
    true
}

/// Whether `c` is a control character.
pub fn is_control_char(c: char) -> (r: bool)
    ensures
        r == is_control(c),
{
    let v = c as u32;
    v <= 0x1f || (0x7f <= v && v <= 0x9f)
}

fn is_insertable(text: &str) -> (r: bool)
    ensures
        r == insertable(text@),
{
    let chars = text_chars(text);
    if chars.len() == 0 {
        return false;
    }
    let mut i: usize = 0;
    while i < chars.len()
        invariant
            chars@ == text@,
            i <= chars.len(),
            forall|j: int| 0 <= j < i ==> !is_control(#[trigger] chars@[j]),
        decreases chars.len() - i,
    {
        if is_control_char(chars[i]) {
            return false;
        }
        i = i + 1;
    }
    true
}

/// Apply one key press to an inline text field; see [`edit_key_view`].
pub fn edit_text_key(
    state: &mut WorldTextInputState,
    key: &str,
    character: Option<&str>,
    command: bool,
    shift: bool,
    paste: Option<&str>,
) -> (handled: bool)
    requires
        fits(old(state).text@),
        character matches Some(c) ==> utf16_units(old(state).text@) + utf16_units(c@)
            <= usize::MAX,
        paste matches Some(p) ==> utf16_units(old(state).text@) + utf16_units(p@) <= usize::MAX,
    ensures
        (handled, final(state)@) == edit_key_view(
            old(state)@,
            key@,
            match character {
                Some(c) => Some(c@),
                None => None,
            },
            command,
            shift,
            match paste {
                Some(p) => Some(p@),
                None => None,
            },
        ),
{
    proof {
        reveal_strlit("");
    }
    if command && str_eq(key, "c") {
        return true;
    }
    if str_eq(key, "left") {
        move_text_cursor(state, false, shift);
    } else if str_eq(key, "right") {
        move_text_cursor(state, true, shift);
    } else if str_eq(key, "home") {
        move_text_selection(state, 0, shift);
    } else if str_eq(key, "end") {
        let len = utf16_len(state.text.as_str());
        move_text_selection(state, len, shift);
    } else if str_eq(key, "backspace") {
        let range = if state.selection.start >= state.selection.end {
            let chars = text_chars(state.text.as_str());
            let start = prev_boundary_exec(&chars, state.selection.end);
            std::ops::Range { start, end: state.selection.end }
        } else {
            copy_range(&state.selection)
        };
        replace_text_state(state, Some(range), "", None);
    } else if str_eq(key, "delete") {
        let range = if state.selection.start >= state.selection.end {
            let chars = text_chars(state.text.as_str());
            let end = next_boundary_exec(&chars, state.selection.end, state.selection.end);
            std::ops::Range { start: state.selection.end, end }
        } else {
            copy_range(&state.selection)
        };
        replace_text_state(state, Some(range), "", None);
    } else if command && str_eq(key, "a") {
        let len = utf16_len(state.text.as_str());
        state.selection = std::ops::Range { start: 0, end: len };
        state.selection_reversed = false;
    } else if command && str_eq(key, "v") {
        match paste {
            Some(p) => replace_text_state(state, None, p, None),
            None => {},
        }
    } else if command && str_eq(key, "x") {
        replace_text_state(state, None, "", None);
    } else if !command {
        match character {
            Some(c) => {
                if is_insertable(c) {
                    replace_text_state(state, None, c, None);
                } else {
                    return false;
                }
            },
            None => {
                return false;
            },
        }
    } else {
        return false;
    }
    true
}

/// Moving the cursor keeps a well-formed state well formed.
pub proof fn lemma_move_cursor_well_formed(v: TextView, forward: bool, extend: bool)
    requires
        well_formed(v),
    ensures
        well_formed(move_cursor_view(v, forward, extend)),
        move_cursor_view(v, forward, extend).text == v.text,
{
    if !(!extend && v.start < v.end) {
        let focus = focus_of(v);
        lemma_char_floor(v.text, focus);
        lemma_prefix_full(v.text);
        lemma_prefix_monotone(v.text, 0, char_floor(v.text, focus) as int);
        if focus > 0 {
            lemma_char_floor(v.text, focus - 1);
            lemma_prefix_monotone(v.text, 0, char_floor(v.text, focus - 1) as int);
        }
        if char_floor(v.text, focus) < v.text.len() {
            lemma_prefix_monotone(v.text, 0, (char_floor(v.text, focus) + 1) as int);
        }
    }
}

/// Every key press leaves a well-formed field well formed: both ranges stay
/// ordered and inside the text.
pub proof fn lemma_edit_key_well_formed(
    v: TextView,
    key: Seq<char>,
    character: Option<Seq<char>>,
    command: bool,
    shift: bool,
    paste: Option<Seq<char>>,
)
    requires
        well_formed(v),
    ensures
        well_formed(edit_key_view(v, key, character, command, shift, paste).1),
{
    let len = utf16_units(v.text) as int;
    lemma_move_cursor_well_formed(v, false, shift);
    lemma_move_cursor_well_formed(v, true, shift);
    lemma_move_selection_well_formed(v, 0, shift);
    lemma_move_selection_well_formed(v, len, shift);
    let empty = Seq::<char>::empty();
    lemma_char_floor(v.text, v.end);
    lemma_prefix_full(v.text);
    lemma_prefix_monotone(v.text, 0, char_floor(v.text, v.end) as int);
    if v.end > 0 {
        lemma_char_floor(v.text, v.end - 1);
        lemma_prefix_monotone(v.text, 0, char_floor(v.text, v.end - 1) as int);
    }
    if char_floor(v.text, v.end) < v.text.len() {
        lemma_prefix_monotone(v.text, 0, (char_floor(v.text, v.end) + 1) as int);
    }
    let back = if v.start >= v.end {
        (prev_boundary(v.text, v.end) as int, v.end)
    } else {
        (v.start, v.end)
    };
    let fwd = if v.start >= v.end {
        (v.end, next_boundary_or(v.text, v.end, v.end))
    } else {
        (v.start, v.end)
    };
    lemma_replace_shape(v, Some(back), empty, None);
    lemma_replace_shape(v, Some(fwd), empty, None);
    lemma_replace_shape(v, None, empty, None);
    match paste {
        Some(p) => lemma_replace_shape(v, None, p, None),
        None => {},
    }
    match character {
        Some(c) => lemma_replace_shape(v, None, c, None),
        None => {},
    }
}

} // verus!
