//! The pixel work that prepares each frame for display: a drop shadow
//! blended under the sprite, then a chromatic aberration that shifts the red
//! channel one way and the blue channel the other, premultiplied by alpha
//! and packed as ARGB words.

use vstd::prelude::*;

use crate::spritesheet::{AnimationFrame, Spritesheet, SpritesheetView};

verus! {

/// How far down and right the shadow falls, in pixels.
pub const SHADOW_OFFSET: i32 = 15;

/// The shadow's opacity, out of 255 (three quarters).
pub const SHADOW_ALPHA: u16 = 191;

/// How far the red and blue channels are shifted, in pixels.
pub const CHROMATIC_OFFSET: i32 = 4;

/// Whether `(x, y)` lies inside a `width` by `height` rectangle, with the
/// bounds compared as `i32`s.
pub open spec fn inside(width: int, height: int, x: i32, y: i32) -> bool {
    !(x < 0 || y < 0 || x >= width as i32 || y >= height as i32)
}

/// The position in the spritesheet's bytes of pixel `(x, y)` of `frame`.
pub open spec fn sheet_offset(sheet_width: u32, frame: AnimationFrame, x: int, y: int) -> int {
    ((frame.y + y) * sheet_width + frame.x + x) * 4
}

/// The four bytes at `i`.
pub open spec fn four_bytes(bytes: Seq<u8>, i: int) -> Seq<u8> {
    seq![bytes[i], bytes[i + 1], bytes[i + 2], bytes[i + 3]]
}

/// A transparent pixel.
pub open spec fn transparent() -> Seq<u8> {
    seq![0u8, 0u8, 0u8, 0u8]
}

/// Pixel `(x, y)` of `frame` in the spritesheet, transparent outside the
/// frame.
pub open spec fn frame_pixel(sheet: SpritesheetView, frame: AnimationFrame, x: i32, y: i32) -> Seq<
    u8,
> {
    if inside(frame.width as int, frame.height as int, x, y) {
        four_bytes(sheet.rgba, sheet_offset(sheet.width, frame, x as int, y as int))
    } else {
        transparent()
    }
}

/// Whether the bytes of pixel `(x, y)` of `frame` lie in the spritesheet
/// when the pixel is inside the frame.
pub open spec fn pixel_readable(sheet: SpritesheetView, frame: AnimationFrame, x: i32, y: i32) -> bool {
    inside(frame.width as int, frame.height as int, x, y) ==> sheet_offset(
        sheet.width,
        frame,
        x as int,
        y as int,
    ) + 4 <= sheet.rgba.len()
}

/// Reads pixel `(x, y)` of `frame` from the spritesheet; outside the frame
/// the pixel is transparent.
pub fn spritesheet_pixel(spritesheet: &Spritesheet, frame: &AnimationFrame, x: i32, y: i32) -> (pixel: [u8; 4])
    requires
        pixel_readable(spritesheet@, *frame, x, y),
    ensures
        pixel@ == frame_pixel(spritesheet@, *frame, x, y),
{
    proof {
        spritesheet.lemma_view_fields();
    }
    if x < 0 || y < 0 || x >= #[verifier::truncate] (frame.width as i32) || y
        >= #[verifier::truncate] (frame.height as i32) {
        return [0; 4];
    }
    proof {
        let row = (frame.y + y) * spritesheet.width;
        assert(row >= 0) by (nonlinear_arith)
            requires
                frame.y + y >= 0,
                spritesheet.width >= 0,
                row == (frame.y + y) * spritesheet.width,
        ;
    }
    // computed in u64, which holds every intermediate value on any target
    let spritesheet_x = frame.x as u64 + x as u64;
    let spritesheet_y = frame.y as u64 + y as u64;
    assert(inside(frame.width as int, frame.height as int, x, y));
    assert(sheet_offset(spritesheet.width, *frame, x as int, y as int) + 4 <= spritesheet.rgba.len());
    assert(spritesheet_y as int * spritesheet.width as int == (frame.y + y) * spritesheet.width);
    let row = spritesheet_y * spritesheet.width as u64;
    let index = ((row + spritesheet_x) * 4) as usize;
    let pixel = [
        spritesheet.rgba[index],
        spritesheet.rgba[index + 1],
        spritesheet.rgba[index + 2],
        spritesheet.rgba[index + 3],
    ];
    assert(pixel@ =~= frame_pixel(spritesheet@, *frame, x, y));
    pixel
}

/// The position of pixel `(x, y)` in a buffer of `width` pixels per row.
pub open spec fn local_offset(width: int, x: int, y: int) -> int {
    (y * width + x) * 4
}

/// Pixel `(x, y)` of a `width` by `height` buffer, transparent outside it.
pub open spec fn buffer_pixel(pixels: Seq<u8>, width: int, height: int, x: i32, y: i32) -> Seq<u8> {
    if inside(width, height, x, y) {
        four_bytes(pixels, local_offset(width, x as int, y as int))
    } else {
        transparent()
    }
}

/// Reads pixel `(x, y)` of a `width` by `height` buffer of four-byte
/// pixels; outside the buffer the pixel is transparent.
pub fn local_pixel(pixels: &[u8], width: usize, height: usize, x: i32, y: i32) -> (pixel: [u8; 4])
    requires
        inside(width as int, height as int, x, y) ==> local_offset(width as int, x as int, y as int)
            + 4 <= pixels.len(),
    ensures
        pixel@ == buffer_pixel(pixels@, width as int, height as int, x, y),
{
    if x < 0 || y < 0 || x >= #[verifier::truncate] (width as i32) || y
        >= #[verifier::truncate] (height as i32) {
        return [0; 4];
    }
    proof {
        let row = y * width;
        assert(row >= 0) by (nonlinear_arith)
            requires
                y >= 0,
                width >= 0,
                row == y * width,
        ;
    }
    let row = y as usize * width;
    let index = (row + x as usize) * 4;
    let pixel = [pixels[index], pixels[index + 1], pixels[index + 2], pixels[index + 3]];
    assert(pixel@ =~= buffer_pixel(pixels@, width as int, height as int, x, y));
    pixel
}

/// The position of channel `c` of pixel `(x, y)` in a buffer of `width`
/// pixels per row, four bytes each.
pub open spec fn byte_at(width: int, x: int, y: int, c: int) -> int {
    (y * width + x) * 4 + c
}

/// Pixel `(x, y)` of `frame` with the drop shadow blended under it: the
/// sprite pixel keeps its color, and its alpha gains the shadow's alpha
/// (the alpha of the pixel `SHADOW_OFFSET` up and left, at `SHADOW_ALPHA`
/// opacity) over what the pixel leaves transparent.
pub open spec fn shaded_pixel(sheet: SpritesheetView, frame: AnimationFrame, x: int, y: int) -> Seq<
    u8,
> {
    let color = frame_pixel(sheet, frame, x as i32, y as i32);
    let shadow = frame_pixel(sheet, frame, (x - SHADOW_OFFSET) as i32, (y - SHADOW_OFFSET) as i32);
    let shadow_alpha = shadow[3] * SHADOW_ALPHA / 255;
    let alpha = color[3] + shadow_alpha * (255 - color[3]) / 255;
    seq![color[0], color[1], color[2], #[verifier::truncate] (alpha as u8)]
}

/// Every pixel of `frame` lies in the spritesheet's bytes.
pub open spec fn frame_fits(sheet: SpritesheetView, frame: AnimationFrame) -> bool {
    forall|x: int, y: int|
        0 <= x < frame.width && 0 <= y < frame.height ==> #[trigger] sheet_offset(
            sheet.width,
            frame,
            x,
            y,
        ) + 4 <= sheet.rgba.len()
}

/// The frame sizes the pixel passes handle without overflow: every
/// position and its neighbors at the shadow and aberration offsets are
/// `i32`s, and the frame's bytes fit in memory.
pub open spec fn frame_size_ok(frame: AnimationFrame) -> bool {
    &&& frame.width <= 0x7fff_fffc
    &&& frame.height <= 0x8000_0000
    &&& frame.width * frame.height * 4 <= isize::MAX
}

/// In row-major order, pixel `(xx, yy)` comes before pixel `(x, y)`.
proof fn lemma_row_major_before(width: int, xx: int, yy: int, x: int, y: int)
    requires
        0 <= xx < width,
        0 <= x < width,
        0 <= yy,
        yy < y || (yy == y && xx < x),
    ensures
        yy * width + xx < y * width + x,
{
    if yy < y {
        assert(yy * width + width <= y * width) by (nonlinear_arith)
            requires
                yy < y,
                width >= 0,
        ;
    }
}

/// A pixel inside a `width` by `height` buffer has its four bytes inside it.
proof fn lemma_pixel_in_buffer(width: int, height: int, x: int, y: int)
    requires
        0 <= x < width,
        0 <= y < height,
    ensures
        0 <= y * width + x,
        (y * width + x) * 4 + 4 <= width * height * 4,
{
    assert(0 <= y * width + x && y * width + x + 1 <= width * height) by (nonlinear_arith)
        requires
            0 <= x < width,
            0 <= y < height,
    ;
}

/// Blends the drop shadow under every pixel of `frame`, into a buffer of
/// `frame.width` by `frame.height` four-byte pixels, row by row.
pub fn shade_frame(spritesheet: &Spritesheet, frame: &AnimationFrame) -> (shadowed: Vec<u8>)
    requires
        frame_fits(spritesheet@, *frame),
        frame_size_ok(*frame),
    ensures
        shadowed.len() == frame.width * frame.height * 4,
        forall|x: int, y: int, c: int|
            0 <= x < frame.width && 0 <= y < frame.height && 0 <= c < 4 ==> shadowed@[#[trigger] byte_at(
                frame.width as int,
                x,
                y,
                c,
            )] == shaded_pixel(spritesheet@, *frame, x, y)[c],
{
    let width = frame.width as usize;
    let height = frame.height as usize;
    let ghost w = width as int;
    let ghost h = height as int;
    let ghost sheet = spritesheet@;
    let mut shadowed: Vec<u8> = vec![0u8; width * height * 4];
    let mut y: usize = 0;
    while y < height
        invariant
            width == frame.width,
            height == frame.height,
            w == width,
            h == height,
            sheet == spritesheet@,
            frame_fits(sheet, *frame),
            frame_size_ok(*frame),
            y <= height,
            shadowed.len() == width * height * 4,
            forall|xx: int, yy: int, c: int|
                0 <= xx < w && 0 <= yy < y && 0 <= c < 4 ==> shadowed@[#[trigger] byte_at(
                    w,
                    xx,
                    yy,
                    c,
                )] == shaded_pixel(sheet, *frame, xx, yy)[c],
        decreases height - y,
    {
        let mut x: usize = 0;
        while x < width
            invariant
                width == frame.width,
                height == frame.height,
                w == width,
                h == height,
                sheet == spritesheet@,
                frame_fits(sheet, *frame),
                frame_size_ok(*frame),
                y < height,
                x <= width,
                shadowed.len() == width * height * 4,
                forall|xx: int, yy: int, c: int|
                    0 <= xx < w && 0 <= yy && (yy < y || (yy == y && xx < x)) && 0 <= c < 4
                        ==> shadowed@[#[trigger] byte_at(w, xx, yy, c)] == shaded_pixel(
                        sheet,
                        *frame,
                        xx,
                        yy,
                    )[c],
            decreases width - x,
        {
            proof {
                assert(sheet_offset(sheet.width, *frame, x as int, y as int) + 4 <= sheet.rgba.len());
                if x >= 15 && y >= 15 {
                    assert(sheet_offset(sheet.width, *frame, x - 15, y - 15) + 4 <= sheet.rgba.len());
                }
                lemma_pixel_in_buffer(w, h, x as int, y as int);
            }
            let color = spritesheet_pixel(spritesheet, frame, x as i32, y as i32);
            let shadow = spritesheet_pixel(
                spritesheet,
                frame,
                x as i32 - SHADOW_OFFSET,
                y as i32 - SHADOW_OFFSET,
            );
            let shadow_alpha = shadow[3] as u16 * SHADOW_ALPHA / 255;
            assert(shadow_alpha * (255 - color[3] as u16) <= 191 * 255) by (nonlinear_arith)
                requires
                    shadow_alpha <= 191,
                    color[3] <= 255,
            ;
            let alpha = color[3] as u16 + shadow_alpha * (255 - color[3] as u16) / 255;
            let index = (y * width + x) * 4;
            let ghost before = shadowed@;
            shadowed[index] = color[0];
            shadowed[index + 1] = color[1];
            shadowed[index + 2] = color[2];
            shadowed[index + 3] = #[verifier::truncate] (alpha as u8);
            proof {
                let px = shaded_pixel(sheet, *frame, x as int, y as int);
                assert(px[3] == alpha as u8);
                assert forall|xx: int, yy: int, c: int|
                    0 <= xx < w && 0 <= yy && (yy < y || (yy == y && xx < x + 1)) && 0 <= c < 4
                        implies shadowed@[#[trigger] byte_at(w, xx, yy, c)] == shaded_pixel(
                        sheet,
                        *frame,
                        xx,
                        yy,
                    )[c] by {
                    if yy == y && xx == x {
                    } else {
                        lemma_row_major_before(w, xx, yy, x as int, y as int);
                        assert(shadowed@[byte_at(w, xx, yy, c)] == before[byte_at(w, xx, yy, c)]);
                    }
                }
            }
            x = x + 1;
        }
        y = y + 1;
    }
    shadowed
}

/// The order in which the bytes of a `u32` lie in memory.
#[derive(Clone, Copy, Debug, PartialEq, Eq, Structural)]
pub enum ByteOrder {
    /// Least significant byte first.
    Little,
    /// Most significant byte first.
    Big,
}

/// The bytes of `word` in the given order.
pub open spec fn word_bytes(word: u32, order: ByteOrder) -> Seq<u8> {
    let b0 = #[verifier::truncate] (word as u8);
    let b1 = #[verifier::truncate] ((word >> 8u32) as u8);
    let b2 = #[verifier::truncate] ((word >> 16u32) as u8);
    let b3 = #[verifier::truncate] ((word >> 24u32) as u8);
    match order {
        ByteOrder::Little => seq![b0, b1, b2, b3],
        ByteOrder::Big => seq![b3, b2, b1, b0],
    }
}

/// The bytes of `word` in the given order.
pub fn bytes_in_order(word: u32, order: ByteOrder) -> (bytes: [u8; 4])
    ensures
        bytes@ == word_bytes(word, order),
{
    let b0 = #[verifier::truncate] (word as u8);
    let b1 = #[verifier::truncate] ((word >> 8u32) as u8);
    let b2 = #[verifier::truncate] ((word >> 16u32) as u8);
    let b3 = #[verifier::truncate] ((word >> 24u32) as u8);
    let bytes = match order {
        ByteOrder::Little => [b0, b1, b2, b3],
        ByteOrder::Big => [b3, b2, b1, b0],
    };
    assert(bytes@ =~= word_bytes(word, order));
    bytes
}

/// Calls `u32::to_ne_bytes`. Trusted: the bytes are those of `word` in one
/// of the two byte orders; which one depends on the machine.
#[verifier::external_body]
fn native_bytes(word: u32) -> (bytes: [u8; 4])
    ensures
        bytes@ == word_bytes(word, ByteOrder::Little) || bytes@ == word_bytes(word, ByteOrder::Big),
{
    word.to_ne_bytes()
}

/// The byte order of this machine, found from the bytes of the word 1.
pub fn native_byte_order() -> (order: ByteOrder) {
    let probe = native_bytes(1);
    if probe[0] == 1 {
        ByteOrder::Little
    } else {
        ByteOrder::Big
    }
}

/// The ARGB word of a pixel: alpha in the top byte, then red, green, blue.
pub open spec fn argb_word(alpha: u32, red: u32, green: u32, blue: u32) -> u32 {
    (alpha << 24u32) | (red << 16u32) | (green << 8u32) | blue
}

/// A pixel after the chromatic aberration, as bytes in `order`, from the
/// pixel itself (`center`) and its neighbors `CHROMATIC_OFFSET` to the right
/// (`positive`) and to the left (`negative`): alpha is the pixel's own, red
/// comes from the right neighbor, green from the pixel, blue from the left
/// neighbor, each premultiplied by the alpha.
pub open spec fn aberration(center: Seq<u8>, positive: Seq<u8>, negative: Seq<u8>, order: ByteOrder) -> Seq<u8> {
    let alpha = center[3] as u32;
    let red = (positive[0] * alpha / 255) as u32;
    let green = (center[1] * alpha / 255) as u32;
    let blue = (negative[2] * alpha / 255) as u32;
    word_bytes(argb_word(alpha, red, green, blue), order)
}

/// Pixel `(x, y)` of a `width` by `height` buffer after the chromatic
/// aberration.
pub open spec fn aberrated_pixel(
    pixels: Seq<u8>,
    width: int,
    height: int,
    x: int,
    y: int,
    order: ByteOrder,
) -> Seq<u8> {
    aberration(
        buffer_pixel(pixels, width, height, x as i32, y as i32),
        buffer_pixel(pixels, width, height, (x + CHROMATIC_OFFSET) as i32, y as i32),
        buffer_pixel(pixels, width, height, (x - CHROMATIC_OFFSET) as i32, y as i32),
        order,
    )
}

/// The position of channel `c` of pixel `(x, y)` in a surface whose rows
/// are `stride` bytes apart.
pub open spec fn surface_byte(stride: int, x: int, y: int, c: int) -> int {
    y * stride + x * 4 + c
}

/// The position of byte `r` of row `y` in a surface whose rows are `stride`
/// bytes apart.
pub open spec fn row_byte(stride: int, y: int, r: int) -> int {
    y * stride + r
}

/// Positions in different rows, or at different places of one row, differ.
proof fn lemma_row_offsets_distinct(stride: int, y: int, a: int, yy: int, b: int)
    requires
        0 <= a < stride,
        0 <= b < stride,
        0 <= y,
        0 <= yy,
        y != yy || a != b,
    ensures
        y * stride + a != yy * stride + b,
{
    if y < yy {
        assert(y * stride + stride <= yy * stride) by (nonlinear_arith)
            requires
                y < yy,
                stride >= 0,
        ;
    } else if yy < y {
        assert(yy * stride + stride <= y * stride) by (nonlinear_arith)
            requires
                yy < y,
                stride >= 0,
        ;
    }
}

/// A row of a surface ends inside it.
proof fn lemma_row_in_surface(stride: int, height: int, y: int)
    requires
        0 <= y < height,
        0 <= stride,
    ensures
        0 <= y * stride,
        y * stride + stride <= stride * height,
{
    assert(0 <= y * stride && y * stride + stride <= stride * height) by (nonlinear_arith)
        requires
            0 <= y < height,
            0 <= stride,
    ;
}

/// Applies the chromatic aberration to a `width` by `height` buffer of
/// four-byte pixels and packs each pixel as an ARGB word in `order`, into
/// a surface whose rows are `stride` bytes apart; the bytes of a row past
/// its pixels stay zero.
pub fn aberrate(shadowed: &[u8], width: usize, height: usize, stride: usize, order: ByteOrder) -> (pixels: Vec<u8>)
    requires
        shadowed.len() == width * height * 4,
        width <= 0x7fff_fffc,
        height <= 0x8000_0000,
        stride * height <= isize::MAX,
        height == 0 || width * 4 <= stride,
    ensures
        pixels.len() == stride * height,
        forall|x: int, y: int, c: int|
            0 <= x < width && 0 <= y < height && 0 <= c < 4 ==> pixels@[#[trigger] surface_byte(
                stride as int,
                x,
                y,
                c,
            )] == aberrated_pixel(shadowed@, width as int, height as int, x, y, order)[c],
        forall|y: int, r: int|
            0 <= y < height && width * 4 <= r < stride ==> pixels@[#[trigger] row_byte(
                stride as int,
                y,
                r,
            )] == 0,
{
    let ghost w = width as int;
    let ghost h = height as int;
    let ghost st = stride as int;
    let mut pixels: Vec<u8> = vec![0u8; stride * height];
    let mut y: usize = 0;
    while y < height
        invariant
            w == width,
            h == height,
            st == stride,
            shadowed.len() == width * height * 4,
            width <= 0x7fff_fffc,
            height <= 0x8000_0000,
            stride * height <= isize::MAX,
            height == 0 || width * 4 <= stride,
            y <= height,
            pixels.len() == stride * height,
            forall|xx: int, yy: int, c: int|
                0 <= xx < w && 0 <= yy < y && 0 <= c < 4 ==> pixels@[#[trigger] surface_byte(
                    st,
                    xx,
                    yy,
                    c,
                )] == aberrated_pixel(shadowed@, w, h, xx, yy, order)[c],
            forall|i: int|
                0 <= i < pixels.len() && w * 4 <= i % st ==> #[trigger] pixels@[i] == 0,
        decreases height - y,
    {
        proof {
            lemma_row_in_surface(st, h, y as int);
        }
        let mut x: usize = 0;
        while x < width
            invariant
                w == width,
                h == height,
                st == stride,
                shadowed.len() == width * height * 4,
                width <= 0x7fff_fffc,
                height <= 0x8000_0000,
                stride * height <= isize::MAX,
                width * 4 <= stride,
                y < height,
                x <= width,
                0 <= y * st,
                y * st + st <= st * h,
                pixels.len() == stride * height,
                forall|xx: int, yy: int, c: int|
                    0 <= xx < w && 0 <= yy && (yy < y || (yy == y && xx < x)) && 0 <= c < 4
                        ==> pixels@[#[trigger] surface_byte(st, xx, yy, c)] == aberrated_pixel(
                        shadowed@,
                        w,
                        h,
                        xx,
                        yy,
                        order,
                    )[c],
                forall|i: int|
                    0 <= i < pixels.len() && w * 4 <= i % st ==> #[trigger] pixels@[i] == 0,
            decreases width - x,
        {
            proof {
                lemma_pixel_in_buffer(w, h, x as int, y as int);
                if x + 4 < width {
                    lemma_pixel_in_buffer(w, h, x + 4, y as int);
                }
                if x >= 4 {
                    lemma_pixel_in_buffer(w, h, x - 4, y as int);
                }
            }
            let center = local_pixel(shadowed, width, height, x as i32, y as i32);
            let positive = local_pixel(shadowed, width, height, x as i32 + CHROMATIC_OFFSET, y as i32);
            let negative = local_pixel(shadowed, width, height, x as i32 - CHROMATIC_OFFSET, y as i32);
            let alpha = center[3] as u32;
            proof {
                assert(positive[0] * alpha <= 255 * 255 && center[1] * alpha <= 255 * 255
                    && negative[2] * alpha <= 255 * 255) by (nonlinear_arith)
                    requires
                        alpha <= 255,
                        positive[0] <= 255,
                        center[1] <= 255,
                        negative[2] <= 255,
                ;
            }
            let red = positive[0] as u32 * alpha / 255;
            let green = center[1] as u32 * alpha / 255;
            let blue = negative[2] as u32 * alpha / 255;
            let argb = (alpha << 24u32) | (red << 16u32) | (green << 8u32) | blue;
            let bytes = bytes_in_order(argb, order);
            let index = y * stride + x * 4;
            let ghost before = pixels@;
            pixels[index] = bytes[0];
            pixels[index + 1] = bytes[1];
            pixels[index + 2] = bytes[2];
            pixels[index + 3] = bytes[3];
            proof {
                let px = aberrated_pixel(shadowed@, w, h, x as int, y as int, order);
                assert(bytes@ == px);
                assert forall|xx: int, yy: int, c: int|
                    0 <= xx < w && 0 <= yy && (yy < y || (yy == y && xx < x + 1)) && 0 <= c < 4
                        implies pixels@[#[trigger] surface_byte(st, xx, yy, c)] == aberrated_pixel(
                        shadowed@,
                        w,
                        h,
                        xx,
                        yy,
                        order,
                    )[c] by {
                    if yy == y && xx == x {
                        assert(surface_byte(st, xx, yy, c) == index + c);
                    } else {
                        lemma_row_in_surface(st, h, yy);
                        lemma_row_offsets_distinct(st, yy, xx * 4 + c, y as int, x * 4 + 0);
                        lemma_row_offsets_distinct(st, yy, xx * 4 + c, y as int, x * 4 + 1);
                        lemma_row_offsets_distinct(st, yy, xx * 4 + c, y as int, x * 4 + 2);
                        lemma_row_offsets_distinct(st, yy, xx * 4 + c, y as int, x * 4 + 3);
                        assert(pixels@[surface_byte(st, xx, yy, c)] == before[surface_byte(st, xx, yy, c)]);
                    }
                }
                assert forall|i: int|
                    0 <= i < pixels.len() && w * 4 <= i % st implies #[trigger] pixels@[i] == 0 by {
                    if index <= i < index + 4 {
                        vstd::arithmetic::div_mod::lemma_fundamental_div_mod_converse(
                            i,
                            st,
                            y as int,
                            i - y * st,
                        );
                    }
                    assert(pixels@[i] == before[i]);
                }
            }
            x = x + 1;
        }
        y = y + 1;
    }
    proof {
        assert forall|yy: int, r: int|
            0 <= yy < h && w * 4 <= r < st implies #[trigger] pixels@[row_byte(st, yy, r)] == 0 by {
            lemma_row_in_surface(st, h, yy);
            vstd::arithmetic::div_mod::lemma_fundamental_div_mod_converse(
                row_byte(st, yy, r),
                st,
                yy,
                r,
            );
        }
    }
    pixels
}

/// The shadow only adds opacity and never overflows a byte: the blended
/// alpha lies between the sprite pixel's alpha and 255.
pub proof fn lemma_shadow_alpha_in_range(sheet: SpritesheetView, frame: AnimationFrame, x: int, y: int)
    ensures
        ({
            let color = frame_pixel(sheet, frame, x as i32, y as i32);
            let shadow = frame_pixel(sheet, frame, (x - SHADOW_OFFSET) as i32, (y - SHADOW_OFFSET) as i32);
            let shadow_alpha = shadow[3] * SHADOW_ALPHA / 255;
            let alpha = color[3] + shadow_alpha * (255 - color[3]) / 255;
            &&& color[3] <= alpha <= 255
            &&& shaded_pixel(sheet, frame, x, y)[3] == alpha
        }),
{
    let color = frame_pixel(sheet, frame, x as i32, y as i32);
    let shadow = frame_pixel(sheet, frame, (x - SHADOW_OFFSET) as i32, (y - SHADOW_OFFSET) as i32);
    let c = color[3] as int;
    let s = shadow[3] as int;
    let shadow_alpha = s * 191 / 255;
    assert(0 <= shadow_alpha <= 191) by (nonlinear_arith)
        requires
            0 <= s <= 255,
            shadow_alpha == s * 191 / 255,
    ;
    assert(0 <= shadow_alpha * (255 - c) / 255 <= 255 - c) by (nonlinear_arith)
        requires
            0 <= shadow_alpha <= 191,
            0 <= c <= 255,
    ;
}

/// The prepared pixels are premultiplied: no color channel exceeds the
/// pixel's alpha.
pub proof fn lemma_channels_within_alpha(center: Seq<u8>, positive: Seq<u8>, negative: Seq<u8>)
    requires
        center.len() == 4,
        positive.len() == 4,
        negative.len() == 4,
    ensures
        ({
            let alpha = center[3] as int;
            &&& positive[0] * alpha / 255 <= alpha
            &&& center[1] * alpha / 255 <= alpha
            &&& negative[2] * alpha / 255 <= alpha
        }),
{
    let alpha = center[3] as int;
    assert forall|v: int| 0 <= v <= 255 implies #[trigger] (v * alpha) / 255 <= alpha by {
        assert((v * alpha) / 255 <= alpha) by (nonlinear_arith)
            requires
                0 <= v <= 255,
                0 <= alpha <= 255,
        ;
    }
    assert(positive[0] * alpha / 255 <= alpha);
    assert(center[1] * alpha / 255 <= alpha);
    assert(negative[2] * alpha / 255 <= alpha);
}

/// An ARGB word of byte-sized channels lies in memory as blue, green, red,
/// alpha on a little-endian machine and as alpha, red, green, blue on a
/// big-endian one.
pub proof fn lemma_argb_layout(alpha: u32, red: u32, green: u32, blue: u32)
    requires
        alpha <= 255,
        red <= 255,
        green <= 255,
        blue <= 255,
    ensures
        word_bytes(argb_word(alpha, red, green, blue), ByteOrder::Little) == seq![
            blue as u8,
            green as u8,
            red as u8,
            alpha as u8,
        ],
        word_bytes(argb_word(alpha, red, green, blue), ByteOrder::Big) == seq![
            alpha as u8,
            red as u8,
            green as u8,
            blue as u8,
        ],
{
    let w = argb_word(alpha, red, green, blue);
    assert(#[verifier::truncate] (w as u8) == blue as u8 && #[verifier::truncate] ((w >> 8u32) as u8)
        == green as u8 && #[verifier::truncate] ((w >> 16u32) as u8) == red as u8
        && #[verifier::truncate] ((w >> 24u32) as u8) == alpha as u8) by (bit_vector)
        requires
            w == (alpha << 24u32) | (red << 16u32) | (green << 8u32) | blue,
            alpha <= 255,
            red <= 255,
            green <= 255,
            blue <= 255,
    ;
}

/// Pixel `(x, y)` of `frame` with its shadow, transparent outside the frame.
pub open spec fn shaded_or_clear(sheet: SpritesheetView, frame: AnimationFrame, x: i32, y: i32) -> Seq<u8> {
    if inside(frame.width as int, frame.height as int, x, y) {
        shaded_pixel(sheet, frame, x as int, y as int)
    } else {
        transparent()
    }
}

/// Pixel `(x, y)` of the prepared frame: the frame with its drop shadow,
/// then the chromatic aberration, packed as an ARGB word in `order`.
pub open spec fn prepared_pixel(
    sheet: SpritesheetView,
    frame: AnimationFrame,
    x: int,
    y: int,
    order: ByteOrder,
) -> Seq<u8> {
    aberration(
        shaded_or_clear(sheet, frame, x as i32, y as i32),
        shaded_or_clear(sheet, frame, (x + CHROMATIC_OFFSET) as i32, y as i32),
        shaded_or_clear(sheet, frame, (x - CHROMATIC_OFFSET) as i32, y as i32),
        order,
    )
}

/// Whether `pixels` holds `frame` prepared in `order`, in rows `stride`
/// bytes apart with zero bytes past each row's pixels.
pub open spec fn is_prepared_surface(
    pixels: Seq<u8>,
    sheet: SpritesheetView,
    frame: AnimationFrame,
    stride: int,
    order: ByteOrder,
) -> bool {
    &&& pixels.len() == stride * frame.height
    &&& forall|x: int, y: int, c: int|
        0 <= x < frame.width && 0 <= y < frame.height && 0 <= c < 4 ==> pixels[#[trigger] surface_byte(
            stride,
            x,
            y,
            c,
        )] == prepared_pixel(sheet, frame, x, y, order)[c]
    &&& forall|y: int, r: int|
        0 <= y < frame.height && frame.width * 4 <= r < stride ==> pixels[#[trigger] row_byte(
            stride,
            y,
            r,
        )] == 0
}

/// Two spritesheets of one width hold the same bytes inside `frame`.
pub open spec fn same_inside_frame(a: SpritesheetView, b: SpritesheetView, frame: AnimationFrame) -> bool {
    &&& a.width == b.width
    &&& forall|x: int, y: int, c: int|
        0 <= x < frame.width && 0 <= y < frame.height && 0 <= c < 4 ==> a.rgba[#[trigger] (sheet_offset(
            a.width,
            frame,
            x,
            y,
        ) + c)] == b.rgba[sheet_offset(a.width, frame, x, y) + c]
}

/// A frame reads nothing of the spritesheet outside its rectangle: two
/// sheets that agree inside it give the same pixel anywhere.
proof fn lemma_frame_pixel_inside_only(
    a: SpritesheetView,
    b: SpritesheetView,
    frame: AnimationFrame,
    x: i32,
    y: i32,
)
    requires
        same_inside_frame(a, b, frame),
    ensures
        frame_pixel(a, frame, x, y) == frame_pixel(b, frame, x, y),
{
    if inside(frame.width as int, frame.height as int, x, y) {
        let o = sheet_offset(a.width, frame, x as int, y as int);
        assert(a.rgba[o + 0] == b.rgba[o + 0]);
        assert(a.rgba[o + 1] == b.rgba[o + 1]);
        assert(a.rgba[o + 2] == b.rgba[o + 2]);
        assert(a.rgba[o + 3] == b.rgba[o + 3]);
        assert(four_bytes(a.rgba, o) =~= four_bytes(b.rgba, o));
    }
}

/// The surfaces that a frame fits in: room for a row of pixels in each
/// stride, and the whole in memory.
pub open spec fn stride_ok(frame: AnimationFrame, stride: int) -> bool {
    &&& stride * frame.height <= isize::MAX
    &&& frame.height == 0 || frame.width * 4 <= stride
}

/// The prepared surface of a frame depends only on the spritesheet's bytes
/// inside the frame: neighboring sprites never bleed into its shadow or its
/// aberration, so two sheets that agree inside the frame give it the same
/// surface.
pub proof fn lemma_surface_reads_only_its_frame(
    a: SpritesheetView,
    b: SpritesheetView,
    frame: AnimationFrame,
    stride: int,
    order: ByteOrder,
    pixels_a: Seq<u8>,
    pixels_b: Seq<u8>,
)
    requires
        same_inside_frame(a, b, frame),
        stride_ok(frame, stride),
        0 <= stride,
        is_prepared_surface(pixels_a, a, frame, stride, order),
        is_prepared_surface(pixels_b, b, frame, stride, order),
    ensures
        pixels_a == pixels_b,
{
    assert forall|x: int, y: int| #[trigger]
        prepared_pixel(a, frame, x, y, order) == prepared_pixel(b, frame, x, y, order) by {
        assert forall|px: i32, py: i32| #[trigger]
            shaded_or_clear(a, frame, px, py) == shaded_or_clear(b, frame, px, py) by {
            lemma_frame_pixel_inside_only(a, b, frame, px, py);
            lemma_frame_pixel_inside_only(
                a,
                b,
                frame,
                (px - SHADOW_OFFSET) as i32,
                (py - SHADOW_OFFSET) as i32,
            );
        }
        assert(shaded_or_clear(a, frame, x as i32, y as i32) == shaded_or_clear(
            b,
            frame,
            x as i32,
            y as i32,
        ));
        assert(shaded_or_clear(a, frame, (x + CHROMATIC_OFFSET) as i32, y as i32)
            == shaded_or_clear(b, frame, (x + CHROMATIC_OFFSET) as i32, y as i32));
        assert(shaded_or_clear(a, frame, (x - CHROMATIC_OFFSET) as i32, y as i32)
            == shaded_or_clear(b, frame, (x - CHROMATIC_OFFSET) as i32, y as i32));
    }
    assert forall|i: int| 0 <= i < pixels_a.len() implies pixels_a[i] == pixels_b[i] by {
        let w = frame.width as int;
        let h = frame.height as int;
        assert(stride > 0) by (nonlinear_arith)
            requires
                0 <= i < stride * h,
                0 <= stride,
                0 <= h,
        ;
        let y = i / stride;
        let r = i % stride;
        vstd::arithmetic::div_mod::lemma_fundamental_div_mod(i, stride);
        assert(0 <= y < h) by (nonlinear_arith)
            requires
                i == stride * y + r,
                0 <= r < stride,
                0 <= i < stride * h,
                stride > 0,
        ;
        if r < w * 4 {
            let x = r / 4;
            let c = r % 4;
            assert(i == surface_byte(stride, x, y, c));
            assert(prepared_pixel(a, frame, x, y, order) == prepared_pixel(b, frame, x, y, order));
        } else {
            assert(i == row_byte(stride, y, r));
        }
    }
    assert(pixels_a =~= pixels_b);
}

/// Prepares the pixels of `frame` for display, as ARGB words in `order`,
/// in rows `stride` bytes apart.
pub fn prepare_frame_pixels(
    spritesheet: &Spritesheet,
    frame: &AnimationFrame,
    stride: usize,
    order: ByteOrder,
) -> (pixels: Vec<u8>)
    requires
        frame_fits(spritesheet@, *frame),
        frame_size_ok(*frame),
        stride_ok(*frame, stride as int),
    ensures
        is_prepared_surface(pixels@, spritesheet@, *frame, stride as int, order),
{
    let shadowed = shade_frame(spritesheet, frame);
    let width = frame.width as usize;
    let height = frame.height as usize;
    let pixels = aberrate(shadowed.as_slice(), width, height, stride, order);
    proof {
        let w = width as int;
        let h = height as int;
        assert forall|x: i32, y: i32| #[trigger]
            buffer_pixel(shadowed@, w, h, x, y) == shaded_or_clear(spritesheet@, *frame, x, y) by {
            if inside(w, h, x, y) {
                let o = local_offset(w, x as int, y as int);
                assert(o == byte_at(w, x as int, y as int, 0));
                assert(o + 1 == byte_at(w, x as int, y as int, 1));
                assert(o + 2 == byte_at(w, x as int, y as int, 2));
                assert(o + 3 == byte_at(w, x as int, y as int, 3));
                assert(four_bytes(shadowed@, o) =~= shaded_pixel(
                    spritesheet@,
                    *frame,
                    x as int,
                    y as int,
                ));
            }
        }
        assert forall|x: int, y: int, c: int|
            0 <= x < w && 0 <= y < h && 0 <= c < 4 implies pixels@[#[trigger] surface_byte(
                stride as int,
                x,
                y,
                c,
            )] == prepared_pixel(spritesheet@, *frame, x, y, order)[c] by {
            assert(buffer_pixel(shadowed@, w, h, x as i32, y as i32) == shaded_or_clear(
                spritesheet@,
                *frame,
                x as i32,
                y as i32,
            ));
            assert(buffer_pixel(shadowed@, w, h, (x + CHROMATIC_OFFSET) as i32, y as i32)
                == shaded_or_clear(spritesheet@, *frame, (x + CHROMATIC_OFFSET) as i32, y as i32));
            assert(buffer_pixel(shadowed@, w, h, (x - CHROMATIC_OFFSET) as i32, y as i32)
                == shaded_or_clear(spritesheet@, *frame, (x - CHROMATIC_OFFSET) as i32, y as i32));
        }
    }
    pixels
}

/// Prepares the pixels of `frame` for display as this machine's native
/// ARGB words, in rows `stride` bytes apart.
pub fn frame_surface_pixels(spritesheet: &Spritesheet, frame: &AnimationFrame, stride: usize) -> (pixels: Vec<u8>)
    requires
        frame_fits(spritesheet@, *frame),
        frame_size_ok(*frame),
        stride_ok(*frame, stride as int),
    ensures
        is_prepared_surface(pixels@, spritesheet@, *frame, stride as int, ByteOrder::Little)
            || is_prepared_surface(pixels@, spritesheet@, *frame, stride as int, ByteOrder::Big),
{
    let order = native_byte_order();
    prepare_frame_pixels(spritesheet, frame, stride, order)
}

/// Whether every pixel of `frame` lies in the spritesheet's bytes.
pub fn frame_in_bounds(spritesheet: &Spritesheet, frame: &AnimationFrame) -> (fits: bool)
    ensures
        fits == frame_fits(spritesheet@, *frame),
{
    proof {
        spritesheet.lemma_view_fields();
    }
    if frame.width == 0 || frame.height == 0 {
        return true;
    }
    let last_row = frame.y as u128 + frame.height as u128 - 1;
    let last_column = frame.x as u128 + frame.width as u128 - 1;
    proof {
        assert(last_row * spritesheet.width <= 0x2_0000_0000u128 * 0x1_0000_0000u128) by (nonlinear_arith)
            requires
                last_row <= 0x2_0000_0000u128,
                spritesheet.width <= 0x1_0000_0000u128,
        ;
    }
    let end = ((last_row * spritesheet.width as u128) + last_column) * 4 + 4;
    let fits = end <= spritesheet.rgba.len() as u128;
    proof {
        let sheet = spritesheet@;
        let w = frame.width as int;
        let h = frame.height as int;
        assert(end == sheet_offset(sheet.width, *frame, w - 1, h - 1) + 4);
        if fits {
            assert forall|x: int, y: int| 0 <= x < frame.width && 0 <= y < frame.height implies #[trigger] sheet_offset(
                sheet.width,
                *frame,
                x,
                y,
            ) + 4 <= sheet.rgba.len() by {
                assert((frame.y + y) * sheet.width <= (frame.y + h - 1) * sheet.width) by (nonlinear_arith)
                    requires
                        y <= h - 1,
                        sheet.width >= 0,
                ;
            }
        } else {
            assert(!(sheet_offset(sheet.width, *frame, w - 1, h - 1) + 4 <= sheet.rgba.len()));
        }
    }
    fits
}

/// Any frame that lies in the spritesheet can be prepared, whatever its
/// size, as long as its positions are `i32`s, its bytes and its surface fit
/// in memory, and the stride leaves room for a row of pixels.
pub proof fn lemma_in_image_frames_can_be_prepared(
    sheet: SpritesheetView,
    frame: AnimationFrame,
    stride: int,
)
    requires
        frame_fits(sheet, frame),
        frame.width <= 0x7fff_fffc,
        frame.height <= 0x8000_0000,
        frame.width * frame.height * 4 <= isize::MAX,
        stride * frame.height <= isize::MAX,
        frame.width * 4 <= stride,
    ensures
        frame_size_ok(frame),
        stride_ok(frame, stride),
{
}

/// Whether `frame` can be prepared into a surface with rows `stride` bytes
/// apart: it lies in the spritesheet, its size is one the pixel passes
/// handle, and the surface has room for it.
pub fn can_prepare(spritesheet: &Spritesheet, frame: &AnimationFrame, stride: usize) -> (ok: bool)
    ensures
        ok == (frame_fits(spritesheet@, *frame) && frame_size_ok(*frame) && stride_ok(
            *frame,
            stride as int,
        )),
        frame_fits(spritesheet@, *frame) && frame.width <= 0x7fff_fffc && frame.height
            <= 0x8000_0000 && frame.width * frame.height * 4 <= isize::MAX && stride * frame.height
            <= isize::MAX && frame.width * 4 <= stride ==> ok,
{
    proof {
        if frame_fits(spritesheet@, *frame) && frame.width <= 0x7fff_fffc && frame.height
            <= 0x8000_0000 && frame.width * frame.height * 4 <= isize::MAX && stride
            * frame.height <= isize::MAX && frame.width * 4 <= stride {
            lemma_in_image_frames_can_be_prepared(spritesheet@, *frame, stride as int);
        }
    }
    let width = frame.width as u128;
    let height = frame.height as u128;
    proof {
        assert(width * height * 4 <= 0x1_0000_0000u128 * 0x1_0000_0000u128 * 4) by (nonlinear_arith)
            requires
                width <= 0x1_0000_0000u128,
                height <= 0x1_0000_0000u128,
        ;
        assert(stride as u128 * height <= 0x1_0000_0000_0000_0000u128 * 0x1_0000_0000u128) by (nonlinear_arith)
            requires
                stride <= 0x1_0000_0000_0000_0000u128,
                height <= 0x1_0000_0000u128,
        ;
    }
    let size_ok = frame.width <= 0x7fff_fffc && frame.height <= 0x8000_0000 && width * height * 4
        <= isize::MAX as u128;
    let room = stride as u128 * height <= isize::MAX as u128 && (frame.height == 0 || width * 4
        <= stride as u128);
    size_ok && room && frame_in_bounds(spritesheet, frame)
}

} // verus!
