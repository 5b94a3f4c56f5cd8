//! Colours and the finished picture.

use crate::rounding::{
    lemma_nearest_single_is_near, lemma_nearest_single_scales, lemma_surplus_bits_bounds,
    lemma_surplus_bits_of_range, nearest_single, surplus_bits,
};
use crate::scalar::{Scalar, FRACTION_SPAN, SIGN_BIT};
use vstd::arithmetic::div_mod::{
    lemma_basic_div, lemma_div_is_ordered, lemma_div_is_ordered_by_denominator,
    lemma_div_multiples_vanish, lemma_div_multiples_vanish_quotient, lemma_fundamental_div_mod,
    lemma_fundamental_div_mod_converse,
};
use vstd::arithmetic::power2::{
    lemma2_to64, lemma_pow2_adds, lemma_pow2_pos, lemma_pow2_strictly_increases, pow2,
};
use vstd::bits::lemma_u64_shr_is_div;
use vstd::prelude::*;

verus! {

/// Red, green and blue, each meant to lie between 0 and 1.
#[derive(Copy, Clone, Debug, PartialEq, Eq, Structural)]
pub struct Color(pub Scalar, pub Scalar, pub Scalar);

/// The colour of a ray that hits nothing.
pub open spec fn background() -> Color {
    Color(Scalar { bits: 0 }, Scalar { bits: 0 }, Scalar { bits: 0 })
}

/// One channel of a colour on the scale from 0 to 255: the channel is
/// multiplied by 255 in single precision, and the whole part of the product
/// is taken. A channel of 1 or more gives 255; a negative one or a NaN
/// gives 0.
pub open spec fn channel_level(channel: Scalar) -> nat {
    if channel.is_nan() || channel.is_negative() {
        0
    } else {
        let product = nearest_single(255 * channel.abs_units());
        if product >= 255 * pow2(149) {
            255
        } else {
            product / pow2(149)
        }
    }
}

impl Color {
    /// Black, the colour of a ray that hits nothing.
    pub fn black() -> (c: Color)
        ensures
            c == background(),
    {
        Color(Scalar { bits: 0 }, Scalar { bits: 0 }, Scalar { bits: 0 })
    }

    /// One channel on the scale from 0 to 255.
    pub fn level(channel: Scalar) -> (level: u8)
        ensures
            level == channel_level(channel),
    {
        if channel.is_nan() || channel.bits >= SIGN_BIT {
            return 0;
        }
        let exponent: u32 = channel.bits / FRACTION_SPAN;
        if exponent >= 127 {
            proof {
                lemma_level_of_one_or_more(channel);
            }
            return 255;
        }
        if exponent < 119 {
            proof {
                lemma_level_of_little(channel);
            }
            return 0;
        }
        let significand: u64 = (FRACTION_SPAN + channel.bits % FRACTION_SPAN) as u64;
        let product: u64 = 255 * significand;
        let step: u64 = if product < 0x8000_0000 {
            128
        } else {
            256
        };
        proof {
            lemma2_to64();
            if product < 0x8000_0000 {
                lemma_surplus_bits_of_range(product as nat, 7);
            } else {
                lemma_surplus_bits_of_range(product as nat, 8);
            }
            assert(pow2(surplus_bits(product as nat)) == step);
        }
        let below: u64 = product / step;
        let rest: u64 = product % step;
        let rounded: u64 = if 2 * rest > step || (2 * rest == step && below % 2 == 1) {
            (below + 1) * step
        } else {
            below * step
        };
        let shift: u64 = (150 - exponent) as u64;
        proof {
            assert(rounded == nearest_single(product as nat));
            lemma_level_between(channel);
            lemma_u64_shr_is_div(rounded, shift);
            lemma_pow2_pos(shift as nat);
            if 24 < shift {
                lemma_pow2_strictly_increases(24, shift as nat);
            }
            lemma_div_is_ordered_by_denominator(
                rounded as int,
                pow2(24) as int,
                pow2(shift as nat) as int,
            );
            assert(rounded as int / 0x100_0000 < 255);
        }
        (rounded >> shift) as u8
    }
}

/// The character of one decimal digit.
pub open spec fn digit(d: nat) -> char {
    if d == 0 {
        '0'
    } else if d == 1 {
        '1'
    } else if d == 2 {
        '2'
    } else if d == 3 {
        '3'
    } else if d == 4 {
        '4'
    } else if d == 5 {
        '5'
    } else if d == 6 {
        '6'
    } else if d == 7 {
        '7'
    } else if d == 8 {
        '8'
    } else {
        '9'
    }
}

/// A number in decimal digits, without leading zeros.
pub open spec fn decimal(n: nat) -> Seq<char>
    decreases n,
{
    if n < 10 {
        seq![digit(n)]
    } else {
        decimal(n / 10).push(digit(n % 10))
    }
}

/// The line of one pixel: the levels of red, green and blue with a space
/// between them.
pub open spec fn pixel_line(pixel: Color) -> Seq<char> {
    decimal(channel_level(pixel.0)) + seq![' '] + decimal(channel_level(pixel.1)) + seq![' ']
        + decimal(channel_level(pixel.2)) + seq!['\n']
}

/// The lines of the pixels in their order.
pub open spec fn pixel_lines(pixels: Seq<Color>) -> Seq<char>
    decreases pixels.len(),
{
    if pixels.len() == 0 {
        Seq::empty()
    } else {
        pixel_lines(pixels.drop_last()) + pixel_line(pixels.last())
    }
}

/// The three lines before the pixels: the format's name, width and height,
/// and the largest level.
pub open spec fn header(width: nat, height: nat) -> Seq<char> {
    seq!['P', '3', '\n'] + decimal(width) + seq![' '] + decimal(height) + seq![
        '\n',
        '2',
        '5',
        '5',
        '\n',
    ]
}

/// A picture as plain text: the header, then one line for each pixel.
pub open spec fn plain_text(width: nat, height: nat, pixels: Seq<Color>) -> Seq<char> {
    header(width, height) + pixel_lines(pixels)
}

/// The one-character text of a decimal digit.
fn digit_text(d: usize) -> (text: &'static str)
    requires
        d < 10,
    ensures
        text@ == seq![digit(d as nat)],
{
    proof {
        reveal_strlit("0");
        reveal_strlit("1");
        reveal_strlit("2");
        reveal_strlit("3");
        reveal_strlit("4");
        reveal_strlit("5");
        reveal_strlit("6");
        reveal_strlit("7");
        reveal_strlit("8");
        reveal_strlit("9");
    }
    let text = if d == 0 {
        "0"
    } else if d == 1 {
        "1"
    } else if d == 2 {
        "2"
    } else if d == 3 {
        "3"
    } else if d == 4 {
        "4"
    } else if d == 5 {
        "5"
    } else if d == 6 {
        "6"
    } else if d == 7 {
        "7"
    } else if d == 8 {
        "8"
    } else {
        "9"
    };
    assert(text@ =~= seq![digit(d as nat)]);
    text
}

/// Appends `n` in decimal digits.
fn push_decimal(text: &mut String, n: usize)
    ensures
        final(text)@ == old(text)@ + decimal(n as nat),
    decreases n,
{
    if n >= 10 {
        push_decimal(text, n / 10);
    }
    text.append(digit_text(n % 10));
    assert(text@ =~= old(text)@ + decimal(n as nat));
}

/// The pixels of a picture, row by row from the first row on, and its width
/// and height.
pub struct Picture {
    pub pixels: Vec<Color>,
    pub dimensions: (usize, usize),
}

impl Picture {
    /// There is one pixel for each place of the raster.
    pub open spec fn well_formed(&self) -> bool {
        self.pixels@.len() == self.dimensions.0 * self.dimensions.1
    }

    /// The column and the row of the pixel with the given index in a raster
    /// of the given width and height.
    pub fn position(width: usize, height: usize, index: usize) -> (at: (usize, usize))
        requires
            index < width * height,
        ensures
            at.0 == index % width,
            at.1 == index / width,
            at.0 < width,
            at.1 < height,
            index == at.1 * width + at.0,
    {
        assert(width > 0) by (nonlinear_arith)
            requires
                index < width * height,
        ;
        let x: usize = index % width;
        let y: usize = index / width;
        proof {
            lemma_fundamental_div_mod(index as int, width as int);
            assert(y < height) by (nonlinear_arith)
                requires
                    index == width * y + x,
                    index < width * height,
                    width > 0,
            ;
            assert(width * y == y * width) by (nonlinear_arith);
        }
        (x, y)
    }

    /// Makes a picture of `pixels`, which come row by row: the pixel in
    /// column `x` of row `y` at the index `y * width + x`. There is no
    /// picture where their number is not that of the raster's places.
    pub fn new(width: usize, height: usize, pixels: Vec<Color>) -> (picture: Option<Picture>)
        ensures
            picture is Some <==> pixels@.len() == width * height,
            picture matches Some(made) ==> made.pixels@ == pixels@ && made.dimensions == (
                width,
                height,
            ) && made.well_formed(),
    {
        let count: usize = pixels.len();
        match width.checked_mul(height) {
            Some(places) => {
                if count == places {
                    Some(Picture { pixels, dimensions: (width, height) })
                } else {
                    None
                }
            },
            None => None,
        }
    }

    /// The picture as plain text: the name of the format, width and
    /// height, the largest level, and then one line for each pixel with its
    /// three levels.
    pub fn write(&self) -> (text: String)
        ensures
            text@ == plain_text(self.dimensions.0 as nat, self.dimensions.1 as nat, self.pixels@),
    {
        let mut text = String::new();
        proof {
            reveal_strlit("P3\n");
            reveal_strlit(" ");
            reveal_strlit("\n255\n");
            reveal_strlit("\n");
        }
        text.append("P3\n");
        push_decimal(&mut text, self.dimensions.0);
        text.append(" ");
        push_decimal(&mut text, self.dimensions.1);
        text.append("\n255\n");
        let ghost head = header(self.dimensions.0 as nat, self.dimensions.1 as nat);
        assert(text@ =~= head);
        let mut i: usize = 0;
        assert(self.pixels@.take(0) =~= Seq::<Color>::empty());
        while i < self.pixels.len()
            invariant
                i <= self.pixels.len(),
                text@ == head + pixel_lines(self.pixels@.take(i as int)),
                " "@ == seq![' '],
                "\n"@ == seq!['\n'],
            decreases self.pixels.len() - i,
        {
            let pixel = self.pixels[i];
            let ghost before = text@;
            push_decimal(&mut text, Color::level(pixel.0) as usize);
            text.append(" ");
            push_decimal(&mut text, Color::level(pixel.1) as usize);
            text.append(" ");
            push_decimal(&mut text, Color::level(pixel.2) as usize);
            text.append("\n");
            proof {
                let done = self.pixels@.take(i + 1);
                assert(done.drop_last() =~= self.pixels@.take(i as int));
                assert(done.last() == pixel);
                assert(text@ =~= before + pixel_line(pixel));
                assert(text@ =~= head + pixel_lines(done));
            }
            i += 1;
        }
        assert(self.pixels@.take(i as int) =~= self.pixels@);
        text
    }
}

/// Pixels lie row by row: in a raster of the given width and height, the
/// pixel in column `x` of row `y` has the index `y * width + x`, and that
/// index leads back to the column and the row.
pub proof fn lemma_row_major(width: nat, height: nat, x: nat, y: nat)
    requires
        x < width,
        y < height,
    ensures
        y * width + x < width * height,
        (y * width + x) % width == x,
        (y * width + x) / width == y,
{
    assert(y * width + x < width * height) by (nonlinear_arith)
        requires
            x < width,
            y < height,
    ;
    lemma_fundamental_div_mod_converse((y * width + x) as int, width as int, y as int, x as int);
}

/// No level is above 255.
pub proof fn lemma_level_is_a_byte(channel: Scalar)
    ensures
        channel_level(channel) <= 255,
{
    if !channel.is_nan() && !channel.is_negative() {
        let product = nearest_single(255 * channel.abs_units());
        lemma_pow2_pos(149);
        if product < 255 * pow2(149) {
            lemma_div_is_ordered(product as int, (255 * pow2(149)) as int, pow2(149) as int);
            lemma_div_multiples_vanish(255, pow2(149) as int);
            assert(255 * pow2(149) == pow2(149) * 255) by (nonlinear_arith);
        }
    }
}

/// A channel below two to the power -8 has the level 0.
pub proof fn lemma_level_of_little(channel: Scalar)
    requires
        !channel.is_nan(),
        !channel.is_negative(),
        channel.exponent() < 119,
    ensures
        channel_level(channel) == 0,
{
    let doublings = channel.doublings();
    let units = channel.abs_units();
    let n = 255 * units;
    let k = surplus_bits(n);
    lemma2_to64();
    lemma_pow2_pos(doublings);
    if doublings < 117 {
        lemma_pow2_strictly_increases(doublings, 117);
    }
    lemma_pow2_adds(24, 117);
    lemma_pow2_adds(8, 141);
    lemma_pow2_pos(141);
    assert(units < pow2(141)) by (nonlinear_arith)
        requires
            units == channel.significand() * pow2(doublings),
            channel.significand() < 0x100_0000,
            0 < pow2(doublings) <= pow2(117),
            pow2(141) == 0x100_0000 * pow2(117),
    ;
    lemma_nearest_single_is_near(n);
    lemma_surplus_bits_bounds(n);
    lemma_pow2_pos(k);
    if k > 0 {
        if 23 + k >= 149 {
            if 23 + k > 149 {
                lemma_pow2_strictly_increases(149, 23 + k);
            }
            assert(false);
        }
        lemma_pow2_strictly_increases(k, 141);
    }
    assert(nearest_single(n) < pow2(149));
    lemma_basic_div(nearest_single(n) as int, pow2(149) as int);
}

/// A channel of 1 or more, an infinity too, has the level 255.
pub proof fn lemma_level_of_one_or_more(channel: Scalar)
    requires
        !channel.is_nan(),
        !channel.is_negative(),
        channel.exponent() >= 127,
    ensures
        channel_level(channel) == 255,
{
    let doublings = channel.doublings();
    let units = channel.abs_units();
    let n = 255 * units;
    let k = surplus_bits(n);
    let step = pow2(k);
    let top = pow2(149);
    lemma2_to64();
    lemma_pow2_pos(149);
    if 126 < doublings {
        lemma_pow2_strictly_increases(126, doublings);
    }
    lemma_pow2_adds(23, 126);
    assert(units >= top) by (nonlinear_arith)
        requires
            units == channel.significand() * pow2(doublings),
            channel.significand() >= 0x80_0000,
            pow2(doublings) >= pow2(126),
            top == 0x80_0000 * pow2(126),
    ;
    assert(n >= 0x100_0000);
    assert(k > 0);
    lemma_pow2_pos(k);
    lemma_nearest_single_is_near(n);
    lemma_surplus_bits_bounds(n);
    let below = n / step;
    if k <= 149 {
        let fill = pow2((149 - k) as nat);
        lemma_pow2_adds(k, (149 - k) as nat);
        let m = 255 * fill;
        assert(m * step == 255 * top) by (nonlinear_arith)
            requires
                m == 255 * fill,
                top == step * fill,
        ;
        lemma_div_is_ordered((m * step) as int, n as int, step as int);
        lemma_div_multiples_vanish(m as int, step as int);
        assert(step * m == m * step) by (nonlinear_arith);
        assert(below >= m);
        assert(below * step >= m * step) by (nonlinear_arith)
            requires
                below >= m,
                step > 0,
        ;
    } else {
        lemma_pow2_adds(23, k);
        if 150 < k {
            lemma_pow2_strictly_increases(150, k);
        }
        lemma_pow2_adds(1, 149);
        lemma_fundamental_div_mod(n as int, step as int);
        assert(below * step >= 255 * top) by (nonlinear_arith)
            requires
                n == step * below + n % step,
                n % step < step,
                n >= 0x80_0000 * step,
                step >= 2 * top,
                top > 0,
        ;
    }
    assert(nearest_single(n) >= 255 * top) by (nonlinear_arith)
        requires
            nearest_single(n) == below * step || nearest_single(n) == (below + 1) * step,
            below * step >= 255 * top,
            step > 0,
    ;
}

/// The level of a channel from two to the power -8 up to 1, without the
/// latter: the significand is multiplied by 255 and rounded, and what the
/// exponent leaves of it before the point is the level.
pub proof fn lemma_level_between(channel: Scalar)
    requires
        !channel.is_nan(),
        !channel.is_negative(),
        119 <= channel.exponent() <= 126,
    ensures
        channel_level(channel) == nearest_single(255 * channel.significand()) / pow2(
            (150 - channel.exponent()) as nat,
        ),
        nearest_single(255 * channel.significand()) < 255 * 0x100_0000,
{
    let significand = channel.significand();
    let doublings = channel.doublings();
    let product = 255 * significand;
    let rounded = nearest_single(product);
    let scale = pow2(doublings);
    let shift = (150 - channel.exponent()) as nat;
    let n = 255 * channel.abs_units();
    lemma2_to64();
    lemma_pow2_pos(doublings);
    lemma_pow2_pos(shift);
    assert(n == product * scale) by (nonlinear_arith)
        requires
            n == 255 * (significand * scale),
            product == 255 * significand,
    ;
    lemma_nearest_single_scales(product, doublings);
    assert(nearest_single(n) == rounded * scale);
    // the rounded product stays below 255 times two to the power 24
    lemma_nearest_single_is_near(product);
    if product < 0x8000_0000 {
        lemma_surplus_bits_of_range(product, 7);
    } else {
        lemma_surplus_bits_of_range(product, 8);
    }
    let step = pow2(surplus_bits(product));
    assert(step == 128 || step == 256);
    assert(rounded < 255 * 0x100_0000) by {
        let rest = product % step;
        let below = product / step;
        lemma_fundamental_div_mod(product as int, step as int);
        assert((below + 1) * step == below * step + step) by (nonlinear_arith);
        assert(step * below == below * step) by (nonlinear_arith);
        if rounded == (below + 1) * step {
            assert(2 * rest >= step);
        }
    }
    lemma_pow2_adds(doublings, shift);
    assert(doublings + shift == 149);
    if 24 < shift {
        lemma_pow2_strictly_increases(24, shift);
    }
    assert(rounded * scale < 255 * pow2(149)) by (nonlinear_arith)
        requires
            rounded < 255 * 0x100_0000,
            0x100_0000 <= pow2(shift),
            pow2(149) == scale * pow2(shift),
            scale > 0,
    ;
    lemma_div_multiples_vanish_quotient(scale as int, rounded as int, pow2(shift) as int);
    assert(scale * rounded == rounded * scale) by (nonlinear_arith);
}

} // verus!
