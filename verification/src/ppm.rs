//! The image as a plain-text picture: a header with the size of the image, and
//! then the three bytes of every pixel as decimal numbers on a line.
use vstd::arithmetic::div_mod::{lemma_div_denominator, lemma_fundamental_div_mod};
use vstd::prelude::*;

verus! {

/// The decimal digits of `n`, as characters, the most significant first, without
/// leading zeros.
pub open spec fn decimal_spec(n: nat) -> Seq<u8>
    decreases n,
{
    if n < 10 {
        seq![(48 + n) as u8]
    } else {
        decimal_spec(n / 10).push((48 + n % 10) as u8)
    }
}

/// The number that a row of decimal digits stands for.
pub open spec fn value_spec(digits: Seq<u8>) -> nat
    decreases digits.len(),
{
    if digits.len() == 0 {
        0
    } else {
        (value_spec(digits.drop_last()) * 10 + (digits.last() - 48)) as nat
    }
}

/// The digits of a number are digits, one at least, and stand for that number.
pub proof fn lemma_decimal(n: nat)
    ensures
        decimal_spec(n).len() >= 1,
        forall|i: int| 0 <= i < decimal_spec(n).len() ==> 48 <= #[trigger] decimal_spec(n)[i] <= 57,
        value_spec(decimal_spec(n)) == n,
        n >= 10 ==> decimal_spec(n)[0] != 48,
    decreases n,
{
    if n < 10 {
        let s = seq![(48 + n) as u8];
        assert(s.drop_last() =~= Seq::<u8>::empty());
        assert(value_spec(s.drop_last()) == 0);
    } else {
        lemma_decimal(n / 10);
        let front = decimal_spec(n / 10);
        let s = front.push((48 + n % 10) as u8);
        assert(s.drop_last() =~= front);
        assert(s[0] == front[0]);
        if n / 10 < 10 {
            assert(front[0] == (48 + n / 10) as u8);
        }
    }
}

/// Ten to the power `k`.
pub open spec fn pow10(k: nat) -> nat
    decreases k,
{
    if k == 0 {
        1
    } else {
        10 * pow10((k - 1) as nat)
    }
}

/// The decimal digits of `n`.
pub fn decimal(n: u32) -> (digits: Vec<u8>)
    ensures
        digits@ == decimal_spec(n as nat),
{
    // the power of ten of the first digit
    let mut div: u32 = 1;
    let ghost mut k: nat = 0;
    while n / div >= 10
        invariant
            div == pow10(k),
            1 <= div,
            div <= n || (n == 0 && div == 1),
        decreases n - div,
    {
        proof {
            lemma_fundamental_div_mod(n as int, div as int);
            assert(div * (n / div) >= div * 10) by (nonlinear_arith)
                requires
                    n / div >= 10,
                    div >= 1,
            ;
            k = k + 1;
        }
        div = div * 10;
    }
    let mut digits: Vec<u8> = Vec::new();
    digits.push(48 + (n / div) as u8);
    while div > 1
        invariant
            div == pow10(k),
            1 <= div,
            div <= n || (n == 0 && div == 1),
            digits@ == decimal_spec((n / div) as nat),
        decreases div,
    {
        let ghost before = div;
        proof {
            assert(pow10(k) == 10 * pow10((k - 1) as nat));
        }
        div = div / 10;
        proof {
            k = (k - 1) as nat;
            assert(before == div * 10);
            lemma_div_denominator(n as int, div as int, 10);
            assert((n / div) / 10 == n / before);
            vstd::arithmetic::div_mod::lemma_div_is_ordered(before as int, n as int, before as int);
            vstd::arithmetic::div_mod::lemma_div_basics(before as int);
            assert(n / before >= 1);
        }
        let digit: u8 = ((n / div) % 10) as u8;
        digits.push(48 + digit);
    }
    assert(n / div == n);
    digits
}

/// The header of a plain-text picture `width` by `height` with bytes as channels:
/// the letter P and the digit 3, the width and the height, and 255, the greatest
/// value of a channel.
pub open spec fn header_spec(width: nat, height: nat) -> Seq<u8> {
    seq![80u8, 51u8, 10u8] + decimal_spec(width) + seq![32u8] + decimal_spec(height) + seq![
        10u8,
        50u8,
        53u8,
        53u8,
        10u8,
    ]
}

/// The line of one pixel: its three bytes in decimal, a blank between them.
pub open spec fn pixel_line_spec(r: u8, g: u8, b: u8) -> Seq<u8> {
    decimal_spec(r as nat) + seq![32u8] + decimal_spec(g as nat) + seq![32u8] + decimal_spec(
        b as nat,
    ) + seq![10u8]
}

/// The lines of the first `count` pixels of `pixels`, three bytes to a pixel.
pub open spec fn body_spec(pixels: Seq<u8>, count: nat) -> Seq<u8>
    decreases count,
{
    if count == 0 {
        Seq::empty()
    } else {
        let i = 3 * (count - 1);
        body_spec(pixels, (count - 1) as nat) + pixel_line_spec(
            pixels[i],
            pixels[i + 1],
            pixels[i + 2],
        )
    }
}

/// The picture: the header, and a line for every pixel.
pub open spec fn picture_spec(width: nat, height: nat, pixels: Seq<u8>) -> Seq<u8> {
    header_spec(width, height) + body_spec(pixels, width * height)
}

fn append(out: &mut Vec<u8>, more: &Vec<u8>)
    ensures
        final(out)@ == old(out)@ + more@,
{
    let mut i: usize = 0;
    let ghost start = out@;
    while i < more.len()
        invariant
            i <= more.len(),
            out@ == start + more@.take(i as int),
        decreases more.len() - i,
    {
        out.push(more[i]);
        proof {
            assert(more@.take(i + 1) == more@.take(i as int).push(more@[i as int]));
        }
        i = i + 1;
    }
    proof {
        assert(more@.take(i as int) == more@);
    }
}

/// The header of the picture.
pub fn header(width: u32, height: u32) -> (out: Vec<u8>)
    ensures
        out@ == header_spec(width as nat, height as nat),
{
    let mut out: Vec<u8> = Vec::new();
    out.push(80);
    out.push(51);
    out.push(10);
    assert(out@ == seq![80u8, 51u8, 10u8]);
    append(&mut out, &decimal(width));
    out.push(32);
    append(&mut out, &decimal(height));
    let ghost front = out@;
    out.push(10);
    out.push(50);
    out.push(53);
    out.push(53);
    out.push(10);
    assert(out@ == front + seq![10u8, 50u8, 53u8, 53u8, 10u8]);
    assert(front == seq![80u8, 51u8, 10u8] + decimal_spec(width as nat) + seq![32u8]
        + decimal_spec(height as nat));
    out
}

/// The line of one pixel.
pub fn pixel_line(r: u8, g: u8, b: u8) -> (out: Vec<u8>)
    ensures
        out@ == pixel_line_spec(r, g, b),
{
    let mut out: Vec<u8> = decimal(r as u32);
    out.push(32);
    append(&mut out, &decimal(g as u32));
    out.push(32);
    append(&mut out, &decimal(b as u32));
    out.push(10);
    out
}

/// The picture `width` by `height` of the given bytes, three to a pixel, rows
/// from the top. Nothing where the bytes are not as many as the size asks for.
pub fn picture(width: u32, height: u32, pixels: &Vec<u8>) -> (out: Option<Vec<u8>>)
    ensures
        out is Some <==> pixels@.len() == 3 * (width * height),
        out matches Some(bytes) ==> bytes@ == picture_spec(width as nat, height as nat, pixels@),
{
    proof {
        assert(0 <= width * height <= 0xFFFF_FFFF * 0xFFFF_FFFF) by (nonlinear_arith)
            requires
                0 <= width <= 0xFFFF_FFFF,
                0 <= height <= 0xFFFF_FFFF,
        ;
    }
    let count: u64 = (width as u64) * (height as u64);
    let len: usize = pixels.len();
    if count > 0x5555_5555_5555_5555 || (len as u64) != 3 * count {
        return None;
    }
    let mut out = header(width, height);
    let mut i: usize = 0;
    let ghost head = out@;
    let total: usize = pixels.len() / 3;
    while i < total
        invariant
            i <= total,
            total == width * height,
            pixels@.len() == 3 * total,
            3 * total <= usize::MAX,
            head == header_spec(width as nat, height as nat),
            out@ == head + body_spec(pixels@, i as nat),
        decreases total - i,
    {
        let line = pixel_line(pixels[3 * i], pixels[3 * i + 1], pixels[3 * i + 2]);
        append(&mut out, &line);
        i = i + 1;
    }
    Some(out)
}

} // verus!
