//! Sizing a text label to fit inside a leaf rectangle.

use vstd::prelude::*;
use vstd::string::StringSliceAdditionalSpecFns;
use crate::geometry::{Point, Rect, Text, COORD_LIMIT};

verus! {

/// Margin left around a label on every side, as the ratio
/// `LABEL_MARGIN_NUM / LABEL_MARGIN_DEN` of its extent.
pub const LABEL_MARGIN_NUM: u64 = 1;
pub const LABEL_MARGIN_DEN: u64 = 50;

/// Width of one character relative to its height,
/// `CHAR_RATIO_NUM / CHAR_RATIO_DEN`.
pub const CHAR_RATIO_NUM: u64 = 3;
pub const CHAR_RATIO_DEN: u64 = 5;

/// The label's height is this part of the height its width allows,
/// `HEIGHT_FACTOR_NUM / HEIGHT_FACTOR_DEN`.
pub const HEIGHT_FACTOR_NUM: u64 = 4;
pub const HEIGHT_FACTOR_DEN: u64 = 5;

/// The box a label takes: its corner, its text length as width and its font
/// size as height.
pub open spec fn label_box(t: Text) -> Rect {
    Rect { a: t.a, off: Point { x: t.text_length, y: t.font_size } }
}

/// Length of a message in bytes, as UTF-8.
pub open spec fn byte_len(s: Seq<char>) -> nat {
    (vstd::utf8::encode_utf8(s).len() as usize) as nat
}

/// Width of the label's footprint: the rectangle's width, or less when the
/// rectangle's height does not allow a message of `len` characters to be that
/// wide; at least one unit for a message in a rectangle of positive extent.
pub open spec fn footprint_width(r: Rect, len: nat) -> int {
    let by_height = r.off.y * CHAR_RATIO_NUM * len / (CHAR_RATIO_DEN as int);
    let fw = if r.off.x <= by_height { r.off.x as int } else { by_height };
    if fw == 0 && len > 0 && r.off.x > 0 && r.off.y > 0 { 1 } else { fw }
}

/// Height of the label's footprint for a given width: the width divided by
/// the message's width ratio, scaled by the height factor, at most the
/// rectangle's height `h`, and at least one unit for a label of positive
/// width in a rectangle of positive height.
pub open spec fn footprint_height(width: int, len: nat, h: u64) -> int {
    if len == 0 {
        0
    } else {
        let raw = width * (CHAR_RATIO_DEN * HEIGHT_FACTOR_NUM) as int / ((CHAR_RATIO_NUM
            * HEIGHT_FACTOR_DEN) * len) as int;
        let c = if raw <= h { raw } else { h as int };
        if c == 0 && width > 0 && h > 0 { 1 } else { c }
    }
}

/// The label's footprint before the margin: it shares the rectangle's corner.
pub open spec fn footprint(r: Rect, len: nat) -> Rect {
    let w = footprint_width(r, len);
    Rect { a: r.a, off: Point { x: w as u64, y: footprint_height(w, len, r.off.y) as u64 } }
}

proof fn lemma_footprint_fits(r: Rect, len: nat)
    requires
        r.wf(),
    ensures
        0 <= footprint_width(r, len) <= r.off.x,
        0 <= footprint_height(footprint_width(r, len), len, r.off.y) <= r.off.y,
        r.contains(footprint(r, len)),
        footprint(r, len).wf(),
        r.off.x > 0 && r.off.y > 0 && len > 0 ==> footprint(r, len).off.x > 0 && footprint(r, len).off.y > 0,
{
    let by_height = r.off.y * CHAR_RATIO_NUM * len / (CHAR_RATIO_DEN as int);
    assert(0 <= by_height) by (nonlinear_arith)
        requires by_height == r.off.y * 3 * len / 5;
    let w = footprint_width(r, len);
    if len > 0 {
        assert(0 <= w * 20 / ((15 * len) as int)) by (nonlinear_arith)
            requires 0 <= w, len > 0;
    }
}

/// An inset by the label margin keeps a positive extent positive.
proof fn lemma_inset_positive(v: u64)
    requires
        v > 0,
    ensures
        v - 2 * (v * LABEL_MARGIN_NUM / (LABEL_MARGIN_DEN as int)) > 0,
{
    assert(v - 2 * (v * 1 / 50) > 0) by (nonlinear_arith)
        requires v > 0;
}

/// Fits the message `msg` into the rectangle `rect`: a footprint that shares
/// the rectangle's corner, as wide as the rectangle or as the message at the
/// rectangle's height allows, inset by the label margin. The label's font size
/// is the inset height and its text length the inset width. The message's
/// length is counted in bytes.
pub fn create_text(rect: &Rect, msg: String) -> (t: Text)
    requires
        rect.wf(),
    ensures
        ({
            let inset = footprint(*rect, byte_len(msg@)).margin_spec(LABEL_MARGIN_NUM, LABEL_MARGIN_DEN);
            &&& t.a == inset.a
            &&& t.font_size == inset.off.y
            &&& t.text_length == inset.off.x
        }),
        t.msg@ == msg@,
        rect.contains(label_box(t)),
        footprint(*rect, byte_len(msg@)).contains(label_box(t)),
        rect.off.x > 0 && rect.off.y > 0 && byte_len(msg@) > 0 ==> t.font_size > 0 && t.text_length > 0,
{
    let s = msg.as_str();
    let n = s.len();
    assert(s.spec_bytes() == vstd::utf8::encode_utf8(msg@));
    let len = n as u64;
    proof {
        lemma_footprint_fits(*rect, len as nat);
        assert(rect.off.y * 3 * len <= COORD_LIMIT * 3 * 0x1_0000_0000_0000_0000) by (nonlinear_arith)
            requires
                rect.off.y <= COORD_LIMIT,
                len < 0x1_0000_0000_0000_0000,
        ;
    }
    let by_height = (rect.off.y as u128) * (CHAR_RATIO_NUM as u128) * (len as u128) / (CHAR_RATIO_DEN as u128);
    let fw: u64 = if (rect.off.x as u128) <= by_height { rect.off.x } else { by_height as u64 };
    let width: u64 = if fw == 0 && len > 0 && rect.off.x > 0 && rect.off.y > 0 { 1 } else { fw };
    let height: u64 = if len == 0 {
        0
    } else {
        let raw = (width as u128) * ((CHAR_RATIO_DEN * HEIGHT_FACTOR_NUM) as u128) / ((CHAR_RATIO_NUM * HEIGHT_FACTOR_DEN) as u128 * (len as u128));
        let c: u64 = if raw <= rect.off.y as u128 { raw as u64 } else { rect.off.y };
        if c == 0 && width > 0 && rect.off.y > 0 { 1 } else { c }
    };
    assert(width <= COORD_LIMIT);
    assert(width == footprint_width(*rect, len as nat));
    assert(height == footprint_height(width as int, len as nat, rect.off.y));
    proof {
        if width > 0 {
            lemma_inset_positive(width);
        }
        if height > 0 {
            lemma_inset_positive(height);
        }
    }
    let text_rect = Rect { a: rect.a, off: Point { x: width, y: height } }.create_margin(LABEL_MARGIN_NUM, LABEL_MARGIN_DEN);
    Text { a: text_rect.a, font_size: text_rect.off.y, text_length: text_rect.off.x, msg }
}

} // verus!
