//! Layered space images: a checksum over layers and the rendering of the
//! visible picture.
use vstd::prelude::*;
use vstd::string::{StringExecFns, StringSliceAdditionalSpecFns};

verus! {

pub const IMAGE_WIDTH: usize = 25;

pub const IMAGE_HEIGHT: usize = 6;

/// Pixels in one layer.
pub const LAYER_SIZE: usize = 150;

/// How many times `c` occurs in `s`.
pub open spec fn count_byte(s: Seq<u8>, c: u8) -> nat
    decreases s.len(),
{
    if s.len() == 0 {
        0
    } else {
        count_byte(s.drop_last(), c) + if s.last() == c {
            1nat
        } else {
            0nat
        }
    }
}

/// The number of layers that `n` pixels make, a last partial one included.
pub open spec fn layer_count(n: nat) -> nat {
    if n % 150 == 0 {
        n / 150
    } else {
        n / 150 + 1
    }
}

/// Layer `k`: the pixels from `150 k` on, at most 150 of them.
pub open spec fn layer(b: Seq<u8>, k: int) -> Seq<u8> {
    if (k + 1) * 150 <= b.len() {
        b.subrange(k * 150, (k + 1) * 150)
    } else {
        b.subrange(k * 150, b.len() as int)
    }
}

pub open spec fn zeros_in(b: Seq<u8>, k: int) -> nat {
    count_byte(layer(b, k), 48)
}

/// Layer `k` is the first of the layers with the fewest `0` pixels.
pub open spec fn is_fewest_zeros_layer(b: Seq<u8>, k: int) -> bool {
    &&& 0 <= k < layer_count(b.len())
    &&& forall|j: int| 0 <= j < layer_count(b.len()) ==> zeros_in(b, k) <= #[trigger] zeros_in(b, j)
    &&& forall|j: int| 0 <= j < k ==> zeros_in(b, k) < #[trigger] zeros_in(b, j)
}

proof fn lemma_layer_count(n: nat, k: int)
    requires
        0 <= k,
    ensures
        k < layer_count(n) <==> k * 150 < n,
{
    assert(k < layer_count(n) <==> k * 150 < n) by (nonlinear_arith)
        requires
            layer_count(n) == if n % 150 == 0 {
                n / 150
            } else {
                n / 150 + 1
            },
            0 <= k,
    ;
}

/// The counts of `0`, `1` and `2` pixels in `b[start..end]`.
fn count_pixels(b: &[u8], start: usize, end: usize) -> (r: (usize, usize, usize))
    requires
        start <= end <= b@.len(),
    ensures
        r.0 == count_byte(b@.subrange(start as int, end as int), 48),
        r.1 == count_byte(b@.subrange(start as int, end as int), 49),
        r.2 == count_byte(b@.subrange(start as int, end as int), 50),
        r.0 <= end - start && r.1 <= end - start && r.2 <= end - start,
{
    let mut zeros: usize = 0;
    let mut ones: usize = 0;
    let mut twos: usize = 0;
    let mut i: usize = start;
    assert(b@.subrange(start as int, start as int) =~= Seq::<u8>::empty());
    while i < end
        invariant
            start <= i <= end <= b@.len(),
            zeros == count_byte(b@.subrange(start as int, i as int), 48),
            ones == count_byte(b@.subrange(start as int, i as int), 49),
            twos == count_byte(b@.subrange(start as int, i as int), 50),
            zeros <= i - start,
            ones <= i - start,
            twos <= i - start,
        decreases end - i,
    {
        assert(b@.subrange(start as int, i + 1).drop_last() =~= b@.subrange(start as int, i as int));
        if b[i] == 48 {
            zeros = zeros + 1;
        } else if b[i] == 49 {
            ones = ones + 1;
        } else if b[i] == 50 {
            twos = twos + 1;
        }
        i = i + 1;
    }
    (zeros, ones, twos)
}

/// The checksum of an image: in the first layer with the fewest `0`
/// pixels, the number of `1` pixels times the number of `2` pixels.
pub fn image_check(image_data: &str) -> (r: i32)
    requires
        image_data.spec_bytes().len() > 0,
    ensures
        exists|k: int|
            is_fewest_zeros_layer(image_data.spec_bytes(), k) && r == count_byte(
                layer(image_data.spec_bytes(), k),
                49,
            ) * count_byte(layer(image_data.spec_bytes(), k), 50),
{
    let b = image_data.as_bytes();
    let n = b.len();
    let mut best_k: usize = 0;
    let mut best_zeros: usize = 0;
    let mut best_value: i32 = 0;
    let mut k: usize = 0;
    let mut start: usize = 0;
    while start < n
        invariant
            n == b@.len(),
            n > 0,
            start <= n,
            start < n ==> start == k * 150 && k < layer_count(n as nat),
            start == n ==> k == layer_count(n as nat),
            k > 0 ==> best_k < k,
            k > 0 ==> best_zeros == zeros_in(b@, best_k as int),
            k > 0 ==> best_value == count_byte(layer(b@, best_k as int), 49) * count_byte(
                layer(b@, best_k as int),
                50,
            ),
            forall|j: int| 0 <= j < k ==> best_zeros <= #[trigger] zeros_in(b@, j),
            forall|j: int| 0 <= j < best_k ==> best_zeros < #[trigger] zeros_in(b@, j),
        decreases n - start,
    {
        proof {
            lemma_layer_count(n as nat, k as int);
            lemma_layer_count(n as nat, k as int + 1);
        }
        let end: usize = if n - start >= 150 {
            start + 150
        } else {
            n
        };
        assert(b@.subrange(start as int, end as int) == layer(b@, k as int));
        let (zeros, ones, twos) = count_pixels(b, start, end);
        if k == 0 || zeros < best_zeros {
            assert(ones * twos <= 150 * 150) by (nonlinear_arith)
                requires
                    ones <= 150,
                    twos <= 150,
            ;
            best_k = k;
            best_zeros = zeros;
            best_value = (ones * twos) as i32;
        }
        k = k + 1;
        start = end;
    }
    assert(is_fewest_zeros_layer(b@, best_k as int));
    best_value
}

/// The pixel at position `pos` seen through the full layers from layer
/// `k` on: the first that is not transparent (`2`), else black (`0`).
pub open spec fn visible_from(b: Seq<u8>, pos: int, k: int) -> u8
    decreases b.len() / 150 - k,
{
    if k < 0 || k >= b.len() / 150 {
        48
    } else if b[k * 150 + pos] != 50 {
        b[k * 150 + pos]
    } else {
        visible_from(b, pos, k + 1)
    }
}

/// The colour of the pixel in column `x` and row `y` of the whole image.
pub fn pixel_color(x: i32, y: i32, image_data: &[u8]) -> (r: char)
    requires
        0 <= x < 25,
        0 <= y < 6,
    ensures
        r == visible_from(image_data@, y * 25 + x, 0) as char,
{
    let n: usize = image_data.len();
    let num_layers: usize = n / LAYER_SIZE;
    let pos: usize = (y as usize) * IMAGE_WIDTH + (x as usize);
    let mut layer: usize = 0;
    while layer < num_layers
        invariant
            n == image_data@.len(),
            num_layers == image_data@.len() / 150,
            pos == y * 25 + x,
            pos < 150,
            layer <= num_layers,
            visible_from(image_data@, pos as int, layer as int) == visible_from(
                image_data@,
                pos as int,
                0,
            ),
        decreases num_layers - layer,
    {
        assert(layer * 150 + pos < image_data@.len()) by (nonlinear_arith)
            requires
                layer < num_layers,
                num_layers == image_data@.len() / 150,
                pos < 150,
        ;
        let index: usize = layer * LAYER_SIZE + pos;
        let pixel = image_data[index];
        if pixel != 50 {
            return pixel as char;
        }
        layer = layer + 1;
    }
    '0'
}

/// How a pixel colour shows: black as a space, white as `*`, anything else as `?`.
pub open spec fn glyph(c: char) -> char {
    if c == '0' {
        ' '
    } else if c == '1' {
        '*'
    } else {
        '?'
    }
}

/// Row `y` of the picture, with its line break.
pub open spec fn rendered_row(b: Seq<u8>, y: int) -> Seq<char> {
    Seq::new(25, |x: int| glyph(visible_from(b, y * 25 + x, 0) as char)).push('\n')
}

/// The first `n` rows of the picture.
pub open spec fn rendered_rows(b: Seq<u8>, n: nat) -> Seq<char>
    decreases n,
{
    if n == 0 {
        Seq::empty()
    } else {
        rendered_rows(b, (n - 1) as nat) + rendered_row(b, n - 1)
    }
}

/// The picture as text: six rows of 25 glyphs, each ending in a line break.
pub fn render_image_output(image_data: &[u8]) -> (r: String)
    ensures
        r@ == rendered_rows(image_data@, 6),
{
    let mut s = String::new();
    let mut y: i32 = 0;
    while y < 6
        invariant
            0 <= y <= 6,
            s@ == rendered_rows(image_data@, y as nat),
        decreases 6 - y,
    {
        let ghost before = s@;
        let mut x: i32 = 0;
        while x < 25
            invariant
                0 <= y < 6,
                0 <= x <= 25,
                s@ == before + Seq::new(
                    x as nat,
                    |i: int| glyph(visible_from(image_data@, y * 25 + i, 0) as char),
                ),
            decreases 25 - x,
        {
            let c = pixel_color(x, y, image_data);
            let ghost prev = s@;
            if c == '0' {
                s.append(" ");
                proof {
                    reveal_strlit(" ");
                }
            } else if c == '1' {
                s.append("*");
                proof {
                    reveal_strlit("*");
                }
            } else {
                s.append("?");
                proof {
                    reveal_strlit("?");
                }
            }
            assert(s@ =~= before + Seq::new(
                (x + 1) as nat,
                |i: int| glyph(visible_from(image_data@, y * 25 + i, 0) as char),
            ));
            x = x + 1;
        }
        s.append("\n");
        proof {
            reveal_strlit("\n");
        }
        assert(s@ =~= rendered_rows(image_data@, (y + 1) as nat));
        y = y + 1;
    }
    s
}

} // verus!
