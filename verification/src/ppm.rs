//! The plain-text raster format: a header of three lines, then every pixel's
//! three channels in decimal, row by row from the top.

use vstd::prelude::*;
use crate::color::{grid_view, Color};
use crate::error::RenderError;

verus! {

/// The ASCII digit for `d`, which lies between 0 and 9.
pub open spec fn digit_byte(d: nat) -> u8 {
    (48 + d) as u8
}

/// The decimal numeral of `n`, most significant digit first, without
/// leading zeros.
pub open spec fn decimal(n: nat) -> Seq<u8>
    decreases n,
{
    if n < 10 {
        seq![digit_byte(n)]
    } else {
        decimal(n / 10).push(digit_byte(n % 10))
    }
}

/// The byte of a space.
pub open spec fn space() -> Seq<u8> {
    seq![32u8]
}

/// The byte of a line feed.
pub open spec fn line_feed() -> Seq<u8> {
    seq![10u8]
}

/// The format's magic line: the capital letter P, the digit three and a
/// line feed.
pub open spec fn magic() -> Seq<u8> {
    seq![80u8, 51u8, 10u8]
}

/// The header for an image of the given size and largest channel value:
/// the magic line, then width, a space and height, then the largest value,
/// each line closed by a line feed.
pub open spec fn header_text(width: nat, height: nat, max_value: nat) -> Seq<u8> {
    magic() + decimal(width) + space() + decimal(height) + line_feed() + decimal(max_value)
        + line_feed()
}

/// One pixel: its three channels in decimal, each followed by a space.
pub open spec fn pixel_text(p: Color) -> Seq<u8> {
    decimal(p[0] as nat) + space() + decimal(p[1] as nat) + space() + decimal(p[2] as nat)
        + space()
}

/// The pixels of one row, left to right.
pub open spec fn row_text(row: Seq<Color>) -> Seq<u8>
    decreases row.len(),
{
    if row.len() == 0 {
        Seq::empty()
    } else {
        row_text(row.drop_last()) + pixel_text(row.last())
    }
}

/// The rows of an image, top to bottom, with nothing between them.
pub open spec fn rows_text(rows: Seq<Seq<Color>>) -> Seq<u8>
    decreases rows.len(),
{
    if rows.len() == 0 {
        Seq::empty()
    } else {
        rows_text(rows.drop_last()) + row_text(rows.last())
    }
}

/// The whole file for a grid with at least one row. The width written in the
/// header is the length of the top row.
pub open spec fn ppm_text(rows: Seq<Seq<Color>>) -> Seq<u8>
    recommends
        rows.len() > 0,
{
    header_text(rows[0].len(), rows.len(), 255) + rows_text(rows)
}

/// Whether `b` is an ASCII digit.
pub open spec fn is_digit(b: u8) -> bool {
    48 <= b <= 57
}

/// The number that a string of digits denotes, most significant digit first.
pub open spec fn numeral_value(digits: Seq<u8>) -> nat
    decreases digits.len(),
{
    if digits.len() == 0 {
        0
    } else {
        numeral_value(digits.drop_last()) * 10 + (digits.last() - 48) as nat
    }
}

/// Whether the numeral of `n` stands in `bytes` at `start` and ends there:
/// the byte behind it, if there is one, is no digit.
pub open spec fn numeral_at(bytes: Seq<u8>, start: int, n: nat) -> bool {
    &&& 0 <= start <= bytes.len()
    &&& decimal(n).is_prefix_of(bytes.skip(start))
    &&& start + decimal(n).len() < bytes.len() ==> !is_digit(bytes[start + decimal(n).len()])
}

/// Whether `bytes` begins with the header for the given size and largest
/// channel value.
pub open spec fn announces(bytes: Seq<u8>, width: nat, height: nat, max_value: nat) -> bool {
    header_text(width, height, max_value).is_prefix_of(bytes)
}

/// A numeral consists of digits, has at least one, and begins with a zero
/// only when it is the numeral of zero.
pub proof fn lemma_decimal_shape(n: nat)
    ensures
        decimal(n).len() >= 1,
        forall|i: int| 0 <= i < decimal(n).len() ==> is_digit(#[trigger] decimal(n)[i]),
        n == 0 ==> decimal(n) == seq![48u8],
        n > 0 ==> decimal(n)[0] != 48,
    decreases n,
{
    if n >= 10 {
        lemma_decimal_shape(n / 10);
        let head = decimal(n / 10);
        assert(decimal(n) == head.push(digit_byte(n % 10)));
        assert forall|i: int| 0 <= i < decimal(n).len() implies is_digit(
            #[trigger] decimal(n)[i],
        ) by {
            if i < head.len() {
                assert(decimal(n)[i] == head[i]);
            }
        }
        assert(decimal(n)[0] == head[0]);
    }
}

/// Reading a numeral gives back the number it was written for.
pub proof fn lemma_value_of_decimal(n: nat)
    ensures
        numeral_value(decimal(n)) == n,
    decreases n,
{
    if n >= 10 {
        lemma_value_of_decimal(n / 10);
        let head = decimal(n / 10);
        let whole = head.push(digit_byte(n % 10));
        assert(whole.drop_last() == head);
        assert(whole.last() == digit_byte(n % 10));
    } else {
        let whole = seq![digit_byte(n)];
        assert(whole.drop_last() == Seq::<u8>::empty());
        assert(numeral_value(whole.drop_last()) == 0);
    }
}

/// Whether `digits` has the form of a numeral: it is not empty, holds
/// digits only, and begins with a zero only when it is a single zero.
pub open spec fn is_numeral(digits: Seq<u8>) -> bool {
    &&& digits.len() >= 1
    &&& forall|i: int| 0 <= i < digits.len() ==> is_digit(#[trigger] digits[i])
    &&& digits.len() > 1 ==> digits[0] != 48
}

/// A string of digits that begins with a digit other than zero denotes a
/// positive number.
proof fn lemma_value_positive(digits: Seq<u8>)
    requires
        digits.len() >= 1,
        forall|i: int| 0 <= i < digits.len() ==> is_digit(#[trigger] digits[i]),
        digits[0] != 48,
    ensures
        numeral_value(digits) >= 1,
    decreases digits.len(),
{
    if digits.len() > 1 {
        let head = digits.drop_last();
        assert(head[0] == digits[0]);
        assert forall|i: int| 0 <= i < head.len() implies is_digit(#[trigger] head[i]) by {
            assert(head[i] == digits[i]);
        }
        lemma_value_positive(head);
    } else {
        assert(digits.last() == digits[0]);
    }
}

/// Writing the number that a numeral denotes gives the numeral back.
pub proof fn lemma_decimal_of_value(digits: Seq<u8>)
    requires
        is_numeral(digits),
    ensures
        decimal(numeral_value(digits)) == digits,
    decreases digits.len(),
{
    let head = digits.drop_last();
    let d = (digits.last() - 48) as nat;
    assert(is_digit(digits[digits.len() - 1]));
    if digits.len() == 1 {
        assert(numeral_value(head) == 0);
        assert(decimal(d) == seq![digit_byte(d)]);
        assert(seq![digit_byte(d)] == digits);
    } else {
        assert(head[0] == digits[0]);
        assert forall|i: int| 0 <= i < head.len() implies is_digit(#[trigger] head[i]) by {
            assert(head[i] == digits[i]);
        }
        lemma_value_positive(head);
        lemma_decimal_of_value(head);
        let v = numeral_value(head) * 10 + d;
        assert(v / 10 == numeral_value(head) && v % 10 == d) by (nonlinear_arith)
            requires
                v == numeral_value(head) * 10 + d,
                d < 10,
        ;
        assert(decimal(v) == decimal(v / 10).push(digit_byte(v % 10)));
        assert(head.push(digits.last()) == digits);
    }
}

/// A prefix of a string of digits denotes no more than the whole string.
proof fn lemma_value_of_prefix(digits: Seq<u8>, k: int)
    requires
        0 <= k <= digits.len(),
    ensures
        numeral_value(digits.take(k)) <= numeral_value(digits),
    decreases digits.len(),
{
    if k == digits.len() {
        assert(digits.take(k) == digits);
    } else {
        let head = digits.drop_last();
        assert(head.take(k) == digits.take(k));
        lemma_value_of_prefix(head, k);
        assert(numeral_value(head) <= numeral_value(head) * 10) by (nonlinear_arith);
    }
}

/// A numeral that stands at `start` and ends there fills the whole run of
/// digits that begins at `start`.
proof fn lemma_numeral_fills_run(bytes: Seq<u8>, start: int, end: int, n: nat)
    requires
        0 <= start <= end <= bytes.len(),
        forall|i: int| start <= i < end ==> is_digit(#[trigger] bytes[i]),
        end < bytes.len() ==> !is_digit(bytes[end]),
        numeral_at(bytes, start, n),
    ensures
        decimal(n) == bytes.subrange(start, end),
{
    lemma_decimal_shape(n);
    let numeral = decimal(n);
    let rest = bytes.skip(start);
    assert forall|j: int| 0 <= j < numeral.len() implies bytes[start + j] == numeral[j] by {
        assert(rest.subrange(0, numeral.len() as int)[j] == rest[j]);
    }
    if numeral.len() > end - start {
        assert(bytes[start + (end - start)] == numeral[end - start]);
    }
    assert(numeral =~= bytes.subrange(start, end));
}

/// At most one numeral stands at a place and ends there.
pub proof fn lemma_numeral_unique(bytes: Seq<u8>, start: int, n: nat, m: nat)
    requires
        numeral_at(bytes, start, n),
        numeral_at(bytes, start, m),
    ensures
        n == m,
{
    lemma_decimal_shape(n);
    lemma_decimal_shape(m);
    let (a, b) = (decimal(n), decimal(m));
    let rest = bytes.skip(start);
    assert forall|j: int| 0 <= j < a.len() implies bytes[start + j] == a[j] by {
        assert(rest.subrange(0, a.len() as int)[j] == rest[j]);
    }
    assert forall|j: int| 0 <= j < b.len() implies bytes[start + j] == b[j] by {
        assert(rest.subrange(0, b.len() as int)[j] == rest[j]);
    }
    if a.len() < b.len() {
        assert(bytes[start + a.len()] == b[a.len() as int]);
    }
    if b.len() < a.len() {
        assert(bytes[start + b.len()] == a[b.len() as int]);
    }
    assert(a =~= b);
    lemma_value_of_decimal(n);
    lemma_value_of_decimal(m);
}

/// The end of the run of digits that begins at `start`.
fn digits_end(bytes: &[u8], start: usize) -> (end: usize)
    requires
        start <= bytes.len(),
    ensures
        start <= end <= bytes.len(),
        forall|i: int| start <= i < end ==> is_digit(#[trigger] bytes@[i]),
        end < bytes.len() ==> !is_digit(bytes@[end as int]),
{
    let mut end: usize = start;
    while end < bytes.len() && 48 <= bytes[end] && bytes[end] <= 57
        invariant
            start <= end <= bytes.len(),
            forall|i: int| start <= i < end ==> is_digit(#[trigger] bytes@[i]),
        decreases bytes.len() - end,
    {
        end += 1;
    }
    end
}

/// Reads the numeral that stands at `start` and ends there, and returns its
/// value and the place behind it. There is none where no digit stands at
/// `start`, where the digits begin with a needless zero, or where they denote
/// more than a `usize` holds.
fn read_numeral(bytes: &[u8], start: usize) -> (r: Option<(usize, usize)>)
    requires
        start <= bytes.len(),
    ensures
        match r {
            Some((n, end)) => numeral_at(bytes@, start as int, n as nat) && end == start
                + decimal(n as nat).len(),
            None => forall|n: nat|
                n <= usize::MAX ==> !#[trigger] numeral_at(bytes@, start as int, n),
        },
{
    let end = digits_end(bytes, start);
    let ghost run = bytes@.subrange(start as int, end as int);
    if end == start || (bytes[start] == 48 && end - start > 1) {
        proof {
            assert forall|n: nat| n <= usize::MAX implies !#[trigger] numeral_at(
                bytes@,
                start as int,
                n,
            ) by {
                if numeral_at(bytes@, start as int, n) {
                    lemma_numeral_fills_run(bytes@, start as int, end as int, n);
                    lemma_decimal_shape(n);
                    assert(run[0] == bytes@[start as int]);
                }
            }
        }
        return None;
    }
    let mut value: usize = 0;
    let mut i: usize = start;
    assert(run.take(0) == Seq::<u8>::empty());
    while i < end
        invariant
            start <= i <= end <= bytes.len(),
            run == bytes@.subrange(start as int, end as int),
            forall|k: int| start <= k < end ==> is_digit(#[trigger] bytes@[k]),
            end < bytes.len() ==> !is_digit(bytes@[end as int]),
            value == numeral_value(run.take(i - start)),
        decreases end - i,
    {
        let d: usize = (bytes[i] - 48) as usize;
        proof {
            let next = run.take(i + 1 - start);
            assert(next.drop_last() == run.take(i - start));
            assert(next.last() == bytes@[i as int]);
            assert(numeral_value(next) == value * 10 + d);
        }
        if value > (usize::MAX - d) / 10 {
            proof {
                assert forall|n: nat| n <= usize::MAX implies !#[trigger] numeral_at(
                    bytes@,
                    start as int,
                    n,
                ) by {
                    if numeral_at(bytes@, start as int, n) {
                        lemma_numeral_fills_run(bytes@, start as int, end as int, n);
                        lemma_value_of_decimal(n);
                        lemma_value_of_prefix(run, i + 1 - start);
                    }
                }
            }
            return None;
        }
        value = value * 10 + d;
        i += 1;
    }
    proof {
        assert(run.take(end - start) == run);
        assert forall|k: int| 0 <= k < run.len() implies is_digit(#[trigger] run[k]) by {
            assert(run[k] == bytes@[start + k]);
        }
        assert(run[0] == bytes@[start as int]);
        lemma_decimal_of_value(run);
        assert(decimal(value as nat).is_prefix_of(bytes@.skip(start as int))) by {
            assert(bytes@.skip(start as int).subrange(0, run.len() as int) =~= run);
        }
    }
    Some((value, end))
}

/// What a header says: the image's size and its largest channel value.
#[derive(Clone, Copy, Debug, PartialEq, Eq, Structural)]
pub struct PpmHeader {
    pub width: usize,
    pub height: usize,
    pub max_value: usize,
}

/// The header read place by place: the magic line, then three numerals,
/// each ended by its separator.
spec fn laid_out(bytes: Seq<u8>, width: nat, height: nat, max_value: nat) -> bool {
    let b: int = 3 + decimal(width).len() as int;
    let c: int = b + 1 + decimal(height).len();
    let d: int = c + 1 + decimal(max_value).len();
    &&& bytes.len() > d
    &&& bytes[0] == 80 && bytes[1] == 51 && bytes[2] == 10
    &&& numeral_at(bytes, 3, width)
    &&& bytes[b] == 32
    &&& numeral_at(bytes, b + 1, height)
    &&& bytes[c] == 10
    &&& numeral_at(bytes, c + 1, max_value)
    &&& bytes[d] == 10
}

/// `bytes` begins with a header exactly when the header's parts stand at
/// their places in it.
proof fn lemma_header_layout(bytes: Seq<u8>, width: nat, height: nat, max_value: nat)
    ensures
        announces(bytes, width, height, max_value) == laid_out(
            bytes,
            width,
            height,
            max_value,
        ),
{
    let (dw, dh, dm) = (decimal(width), decimal(height), decimal(max_value));
    let text = header_text(width, height, max_value);
    let b: int = 3 + dw.len() as int;
    let c: int = b + 1 + dh.len();
    let d: int = c + 1 + dm.len();
    assert(text.len() == d + 1);
    assert(text[0] == 80 && text[1] == 51 && text[2] == 10);
    assert(forall|j: int| 0 <= j < dw.len() ==> text[3 + j] == dw[j]);
    assert(text[b] == 32);
    assert(forall|j: int| 0 <= j < dh.len() ==> text[b + 1 + j] == dh[j]);
    assert(text[c] == 10);
    assert(forall|j: int| 0 <= j < dm.len() ==> text[c + 1 + j] == dm[j]);
    assert(text[d] == 10);
    if announces(bytes, width, height, max_value) {
        assert(forall|k: int| 0 <= k < text.len() ==> bytes.subrange(0, text.len() as int)[k]
            == bytes[k]);
        assert(forall|k: int| 0 <= k < text.len() ==> text[k] == bytes[k]);
        assert(dw =~= bytes.skip(3).subrange(0, dw.len() as int)) by {
            assert forall|j: int| 0 <= j < dw.len() implies dw[j] == bytes[3 + j] by {
                assert(text[3 + j] == bytes[3 + j]);
            }
        }
        assert(dh =~= bytes.skip(b + 1).subrange(0, dh.len() as int)) by {
            assert forall|j: int| 0 <= j < dh.len() implies dh[j] == bytes[b + 1 + j] by {
                assert(text[b + 1 + j] == bytes[b + 1 + j]);
            }
        }
        assert(dm =~= bytes.skip(c + 1).subrange(0, dm.len() as int)) by {
            assert forall|j: int| 0 <= j < dm.len() implies dm[j] == bytes[c + 1 + j] by {
                assert(text[c + 1 + j] == bytes[c + 1 + j]);
            }
        }
        assert(laid_out(bytes, width, height, max_value));
    }
    if laid_out(bytes, width, height, max_value) {
        assert forall|k: int| 0 <= k < text.len() implies text[k] == bytes[k] by {
            if 3 <= k < b {
                assert(bytes.skip(3).subrange(0, dw.len() as int)[k - 3] == bytes[k]);
            } else if b + 1 <= k < c {
                assert(bytes.skip(b + 1).subrange(0, dh.len() as int)[k - b - 1] == bytes[k]);
            } else if c + 1 <= k < d {
                assert(bytes.skip(c + 1).subrange(0, dm.len() as int)[k - c - 1] == bytes[k]);
            }
        }
        assert(text =~= bytes.subrange(0, text.len() as int));
    }
}

/// A file begins with at most one header.
pub proof fn lemma_header_unique(
    bytes: Seq<u8>,
    width: nat,
    height: nat,
    max_value: nat,
    width2: nat,
    height2: nat,
    max_value2: nat,
)
    requires
        announces(bytes, width, height, max_value),
        announces(bytes, width2, height2, max_value2),
    ensures
        width == width2,
        height == height2,
        max_value == max_value2,
{
    lemma_header_layout(bytes, width, height, max_value);
    lemma_header_layout(bytes, width2, height2, max_value2);
    lemma_numeral_unique(bytes, 3, width, width2);
    let b: int = 3 + decimal(width).len() as int;
    lemma_numeral_unique(bytes, b + 1, height, height2);
    let c: int = b + 1 + decimal(height).len();
    lemma_numeral_unique(bytes, c + 1, max_value, max_value2);
}

/// Reads the header that `bytes` begins with: the magic line, the width
/// and the height with one space between them, and the largest channel
/// value, each line closed by one line feed, each number written without
/// leading zeros. Returns the header if `bytes` begins with one whose three
/// numbers each fit a `usize`, and `None` otherwise.
pub fn parse_header(bytes: &[u8]) -> (r: Option<PpmHeader>)
    ensures
        match r {
            Some(header) => announces(
                bytes@,
                header.width as nat,
                header.height as nat,
                header.max_value as nat,
            ),
            None => true,
        },
        forall|width: nat, height: nat, max_value: nat|
            #[trigger] announces(bytes@, width, height, max_value) && width <= usize::MAX
                && height <= usize::MAX && max_value <= usize::MAX ==> r == Some(
                (PpmHeader {
                    width: width as usize,
                    height: height as usize,
                    max_value: max_value as usize,
                }),
            ),
{
    proof {
        assert forall|width: nat, height: nat, max_value: nat|
            #[trigger] announces(bytes@, width, height, max_value) == laid_out(
                bytes@,
                width,
                height,
                max_value,
            ) by {
            lemma_header_layout(bytes@, width, height, max_value);
        }
    }
    let len = bytes.len();
    if len < 3 || bytes[0] != 80 || bytes[1] != 51 || bytes[2] != 10 {
        return None;
    }
    let (width, b) = match read_numeral(bytes, 3) {
        Some(found) => found,
        None => {
            return None;
        },
    };
    assert forall|w: nat| #[trigger] numeral_at(bytes@, 3, w) implies w == width by {
        lemma_numeral_unique(bytes@, 3, w, width as nat);
    }
    if b >= len || bytes[b] != 32 {
        return None;
    }
    let (height, c) = match read_numeral(bytes, b + 1) {
        Some(found) => found,
        None => {
            return None;
        },
    };
    assert forall|h: nat| #[trigger] numeral_at(bytes@, b + 1, h) implies h == height by {
        lemma_numeral_unique(bytes@, b + 1, h, height as nat);
    }
    if c >= len || bytes[c] != 10 {
        return None;
    }
    let (max_value, d) = match read_numeral(bytes, c + 1) {
        Some(found) => found,
        None => {
            return None;
        },
    };
    assert forall|m: nat| #[trigger] numeral_at(bytes@, c + 1, m) implies m == max_value by {
        lemma_numeral_unique(bytes@, c + 1, m, max_value as nat);
    }
    if d >= len || bytes[d] != 10 {
        return None;
    }
    assert(laid_out(bytes@, width as nat, height as nat, max_value as nat));
    Some(PpmHeader { width, height, max_value })
}

/// Appends the decimal numeral of `n` to `out`.
fn push_decimal(out: &mut Vec<u8>, n: usize)
    ensures
        final(out)@ == old(out)@ + decimal(n as nat),
    decreases n,
{
    if n >= 10 {
        push_decimal(out, n / 10);
    }
    let d: u8 = (n % 10) as u8;
    out.push(48 + d);
    proof {
        if n >= 10 {
            assert(out@ == old(out)@ + decimal((n / 10) as nat).push(digit_byte((n % 10) as nat)));
        } else {
            assert(out@ == old(out)@ + seq![digit_byte(n as nat)]);
        }
    }
}

/// Appends one pixel to `out`.
fn push_pixel(out: &mut Vec<u8>, p: &Color)
    ensures
        final(out)@ == old(out)@ + pixel_text(*p),
{
    push_decimal(out, p[0] as usize);
    out.push(32);
    push_decimal(out, p[1] as usize);
    out.push(32);
    push_decimal(out, p[2] as usize);
    out.push(32);
    assert(out@ == old(out)@ + pixel_text(*p));
}

/// Appends the pixels of one row to `out`.
fn push_row(out: &mut Vec<u8>, row: &Vec<Color>)
    ensures
        final(out)@ == old(out)@ + row_text(row@),
{
    let mut x: usize = 0;
    assert(row@.take(0) == Seq::<Color>::empty());
    while x < row.len()
        invariant
            x <= row.len(),
            out@ == old(out)@ + row_text(row@.take(x as int)),
        decreases row.len() - x,
    {
        push_pixel(out, &row[x]);
        proof {
            let next = row@.take(x + 1);
            assert(next.drop_last() == row@.take(x as int));
            assert(next.last() == row@[x as int]);
        }
        x += 1;
    }
    assert(row@.take(x as int) == row@);
}

/// Appends the header for the given size to `out`, with 255 as the largest
/// channel value.
fn push_header(out: &mut Vec<u8>, width: usize, height: usize)
    ensures
        final(out)@ == old(out)@ + header_text(width as nat, height as nat, 255),
{
    out.push(80);
    out.push(51);
    out.push(10);
    push_decimal(out, width);
    out.push(32);
    push_decimal(out, height);
    out.push(10);
    push_decimal(out, 255);
    out.push(10);
    assert(out@ == old(out)@ + header_text(width as nat, height as nat, 255));
}

/// Serialises a pixel grid: the header, with the top row's length as the
/// width and the number of rows as the height, then all pixels row by row.
/// The grid needs a top row to take the width from.
pub fn img_arr_to_ppm(img_arr: &Vec<Vec<Color>>) -> (out: Vec<u8>)
    requires
        img_arr.len() > 0,
    ensures
        out@ == ppm_text(grid_view(img_arr)),
{
    let mut out: Vec<u8> = Vec::new();
    push_header(&mut out, img_arr[0].len(), img_arr.len());
    let ghost rows = grid_view(img_arr);
    let ghost header = out@;
    assert(header == header_text(rows[0].len(), rows.len(), 255));
    let mut y: usize = 0;
    assert(rows.take(0) == Seq::<Seq<Color>>::empty());
    while y < img_arr.len()
        invariant
            y <= img_arr.len(),
            rows == grid_view(img_arr),
            out@ == header + rows_text(rows.take(y as int)),
        decreases img_arr.len() - y,
    {
        push_row(&mut out, &img_arr[y]);
        proof {
            let next = rows.take(y + 1);
            assert(next.drop_last() == rows.take(y as int));
            assert(next.last() == img_arr@[y as int]@);
        }
        y += 1;
    }
    assert(rows.take(y as int) == rows);
    out
}

/// Round trip of the header: the file written for a grid begins with the
/// header of the grid's own size and of 255 as the largest channel value,
/// and with no other. So reading the header of a written file recovers the
/// top row's length, the number of rows and 255.
pub proof fn lemma_header_round_trip(rows: Seq<Seq<Color>>)
    requires
        rows.len() > 0,
    ensures
        announces(ppm_text(rows), rows[0].len(), rows.len(), 255),
        forall|width: nat, height: nat, max_value: nat| #[trigger]
            announces(ppm_text(rows), width, height, max_value) ==> width == rows[0].len()
                && height == rows.len() && max_value == 255,
{
    let text = ppm_text(rows);
    let header = header_text(rows[0].len(), rows.len(), 255);
    assert(header =~= text.subrange(0, header.len() as int));
    assert forall|width: nat, height: nat, max_value: nat| #[trigger]
        announces(text, width, height, max_value) implies width == rows[0].len() && height
        == rows.len() && max_value == 255 by {
        lemma_header_unique(text, width, height, max_value, rows[0].len(), rows.len(), 255);
    }
}

/// The extension that names the format.
pub open spec fn ppm_extension() -> Seq<char> {
    seq!['p', 'p', 'm']
}

/// Whether a path extension names the format. Only `ppm`, in lower case,
/// does.
pub fn is_ppm_extension(extension: &str) -> (r: bool)
    ensures
        r == (extension@ == ppm_extension()),
{
    if extension.unicode_len() != 3 {
        return false;
    }
    let r = extension.get_char(0) == 'p' && extension.get_char(1) == 'p' && extension.get_char(2)
        == 'm';
    assert(r ==> extension@ =~= ppm_extension());
    r
}

/// The contents of the file to write for a grid at a path with the given
/// extension: the serialised grid where the extension names the format, and
/// `UnrecognizedOutputFormat` where it does not.
pub fn ppm_file_contents(extension: &str, img_arr: &Vec<Vec<Color>>) -> (r: Result<
    Vec<u8>,
    RenderError,
>)
    requires
        img_arr.len() > 0,
    ensures
        match r {
            Ok(bytes) => extension@ == ppm_extension() && bytes@ == ppm_text(grid_view(img_arr)),
            Err(e) => extension@ != ppm_extension() && e == RenderError::UnrecognizedOutputFormat,
        },
{
    if is_ppm_extension(extension) {
        Ok(img_arr_to_ppm(img_arr))
    } else {
        Err(RenderError::UnrecognizedOutputFormat)
    }
}

} // verus!
