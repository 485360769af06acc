use pocket_femtanyl::pixels::{
    aberrate, bytes_in_order, can_prepare, frame_in_bounds, frame_surface_pixels, local_pixel,
    native_byte_order, prepare_frame_pixels, shade_frame, spritesheet_pixel, ByteOrder,
};
use pocket_femtanyl::spritesheet::{AnimationFrame, Spritesheet};

fn encode_png(width: u32, height: u32, pixels: &[u8]) -> Vec<u8> {
    let mut bytes = Vec::new();
    {
        let mut encoder = png::Encoder::new(&mut bytes, width, height);
        encoder.set_color(png::ColorType::Rgba);
        encoder.set_depth(png::BitDepth::Eight);
        let mut writer = encoder.write_header().unwrap();
        writer.write_image_data(pixels).unwrap();
    }
    bytes
}

fn sheet_of(width: u32, height: u32, pixels: &[u8], frame: &str) -> Spritesheet {
    let xml = format!("<a><SubTexture name=\"idle0\" {frame}/></a>");
    Spritesheet::from_assets(&encode_png(width, height, pixels), &xml).unwrap()
}

/// The pixel passes written out directly, as a reference.
fn reference_pixels(sheet: &Spritesheet, frame: &AnimationFrame, stride: usize) -> Vec<u8> {
    let sheet_px = |x: i32, y: i32| -> [u8; 4] {
        if x < 0 || y < 0 || x >= frame.width as i32 || y >= frame.height as i32 {
            return [0; 4];
        }
        let i = (((frame.y as i32 + y) as usize) * sheet.width as usize + (frame.x as i32 + x) as usize) * 4;
        [sheet.rgba[i], sheet.rgba[i + 1], sheet.rgba[i + 2], sheet.rgba[i + 3]]
    };
    let (w, h) = (frame.width as usize, frame.height as usize);
    let mut shadowed = vec![0u8; w * h * 4];
    for y in 0..h {
        for x in 0..w {
            let color = sheet_px(x as i32, y as i32);
            let shadow = sheet_px(x as i32 - 15, y as i32 - 15);
            let sa = shadow[3] as u16 * 191 / 255;
            let alpha = color[3] as u16 + sa * (255 - color[3] as u16) / 255;
            let i = (y * w + x) * 4;
            shadowed[i..i + 4].copy_from_slice(&[color[0], color[1], color[2], alpha as u8]);
        }
    }
    let local = |x: i32, y: i32| -> [u8; 4] {
        if x < 0 || y < 0 || x >= w as i32 || y >= h as i32 {
            return [0; 4];
        }
        let i = (y as usize * w + x as usize) * 4;
        [shadowed[i], shadowed[i + 1], shadowed[i + 2], shadowed[i + 3]]
    };
    let mut out = vec![0u8; stride * h];
    for y in 0..h {
        for x in 0..w {
            let c = local(x as i32, y as i32);
            let p = local(x as i32 + 4, y as i32);
            let n = local(x as i32 - 4, y as i32);
            let a = c[3] as u32;
            let argb = (a << 24) | ((p[0] as u32 * a / 255) << 16) | ((c[1] as u32 * a / 255) << 8) | (n[2] as u32 * a / 255);
            let i = y * stride + x * 4;
            out[i..i + 4].copy_from_slice(&argb.to_ne_bytes());
        }
    }
    out
}

fn test_sheet() -> (Spritesheet, AnimationFrame) {
    // a 24 by 20 image with varied colors and alphas
    let (w, h) = (24u32, 20u32);
    let mut pixels = Vec::new();
    for y in 0..h {
        for x in 0..w {
            pixels.extend_from_slice(&[(x * 10) as u8, (y * 12) as u8, (x * y) as u8, if (x + y) % 3 == 0 { 0 } else { (x * 7 + y * 5) as u8 }]);
        }
    }
    let sheet = sheet_of(w, h, &pixels, r#"x="1" y="1" width="21" height="18""#);
    let frame = AnimationFrame { x: 1, y: 1, width: 21, height: 18 };
    (sheet, frame)
}

#[test]
fn reads_sheet_pixels() {
    let pixels: Vec<u8> = (0..64).collect();
    let sheet = sheet_of(4, 4, &pixels, r#"x="1" y="2" width="2" height="2""#);
    let frame = AnimationFrame { x: 1, y: 2, width: 2, height: 2 };
    // pixel (1, 2) of the sheet is at byte (2 * 4 + 1) * 4 = 36
    assert_eq!(spritesheet_pixel(&sheet, &frame, 0, 0), [36, 37, 38, 39]);
    assert_eq!(spritesheet_pixel(&sheet, &frame, 1, 1), [56, 57, 58, 59]);
    assert_eq!(spritesheet_pixel(&sheet, &frame, 2, 0), [0; 4]);
    assert_eq!(spritesheet_pixel(&sheet, &frame, -1, 0), [0; 4]);
    assert_eq!(spritesheet_pixel(&sheet, &frame, 0, 2), [0; 4]);
}

#[test]
fn reads_local_pixels() {
    let pixels: Vec<u8> = (0..24).collect();
    assert_eq!(local_pixel(&pixels, 3, 2, 2, 1), [20, 21, 22, 23]);
    assert_eq!(local_pixel(&pixels, 3, 2, 0, 0), [0, 1, 2, 3]);
    assert_eq!(local_pixel(&pixels, 3, 2, 3, 0), [0; 4]);
    assert_eq!(local_pixel(&pixels, 3, 2, 0, -4), [0; 4]);
}

#[test]
fn bytes_follow_the_order() {
    assert_eq!(bytes_in_order(0x0102_0304, ByteOrder::Little), [4, 3, 2, 1]);
    assert_eq!(bytes_in_order(0x0102_0304, ByteOrder::Big), [1, 2, 3, 4]);
    let native = native_byte_order();
    assert_eq!(bytes_in_order(0xdead_beef, native), 0xdead_beefu32.to_ne_bytes());
}

#[test]
fn shadow_blends_under_the_sprite() {
    // a 16 by 16 frame: the opaque pixel at (0, 0) casts its shadow on (15, 15)
    let mut pixels = vec![0u8; 16 * 16 * 4];
    pixels[0..4].copy_from_slice(&[10, 20, 30, 255]);
    let sheet = sheet_of(16, 16, &pixels, r#"x="0" y="0" width="16" height="16""#);
    let frame = AnimationFrame { x: 0, y: 0, width: 16, height: 16 };
    let shadowed = shade_frame(&sheet, &frame);
    assert_eq!(shadowed.len(), 16 * 16 * 4);
    assert_eq!(&shadowed[0..4], &[10, 20, 30, 255]);
    let i = (15 * 16 + 15) * 4;
    assert_eq!(&shadowed[i..i + 4], &[0, 0, 0, 191]);
    assert_eq!(&shadowed[4..8], &[0, 0, 0, 0]);
}

#[test]
fn aberration_shifts_red_and_blue() {
    // one row of 9 pixels, all opaque; red only at x = 4, blue only at x = 4
    let mut row = vec![0u8; 9 * 4];
    for x in 0..9 {
        row[x * 4 + 3] = 255;
    }
    row[4 * 4] = 200;
    row[4 * 4 + 2] = 100;
    let out = aberrate(&row, 9, 1, 40, ByteOrder::Big);
    assert_eq!(out.len(), 40);
    // red shows 4 pixels to the left, blue 4 pixels to the right
    assert_eq!(&out[0..4], &[255, 200, 0, 0]);
    assert_eq!(&out[32..36], &[255, 0, 0, 100]);
    assert_eq!(&out[16..20], &[255, 0, 0, 0]);
    assert_eq!(&out[36..40], &[0, 0, 0, 0]);
}

#[test]
fn aberration_premultiplies_alpha() {
    let pixel = [200u8, 100, 50, 128];
    let out = aberrate(&pixel, 1, 1, 4, ByteOrder::Little);
    // only green comes from the pixel itself; 100 * 128 / 255 = 50
    assert_eq!(out, vec![0, 50, 0, 128]);
}

#[test]
fn prepared_pixels_match_the_passes() {
    let (sheet, frame) = test_sheet();
    for stride in [84usize, 96] {
        assert!(can_prepare(&sheet, &frame, stride));
        let ours = frame_surface_pixels(&sheet, &frame, stride);
        assert_eq!(ours, reference_pixels(&sheet, &frame, stride));
        let ordered = prepare_frame_pixels(&sheet, &frame, stride, native_byte_order());
        assert_eq!(ordered, ours);
    }
}

#[test]
fn checks_what_can_be_prepared() {
    let (sheet, frame) = test_sheet();
    assert!(frame_in_bounds(&sheet, &frame));
    assert!(!can_prepare(&sheet, &frame, 80));
    // the frame reads past the end of the image's bytes
    let outside = AnimationFrame { x: 4, y: 2, width: 21, height: 18 };
    assert!(!frame_in_bounds(&sheet, &outside));
    let last_row = AnimationFrame { x: 0, y: 19, width: 24, height: 1 };
    assert!(frame_in_bounds(&sheet, &last_row));
    let past_end = AnimationFrame { x: 0, y: 19, width: 24, height: 2 };
    assert!(!frame_in_bounds(&sheet, &past_end));
    let empty = AnimationFrame { x: 1000, y: 1000, width: 0, height: 5 };
    assert!(frame_in_bounds(&sheet, &empty));
}

#[test]
fn neighbors_do_not_bleed_into_a_frame() {
    let (sheet, frame) = test_sheet();
    // the same image with everything outside the frame's rectangle changed
    let mut pixels = sheet.rgba.clone();
    for y in 0..20usize {
        for x in 0..24usize {
            let inside = (1..22).contains(&x) && (1..19).contains(&y);
            if !inside {
                let i = (y * 24 + x) * 4;
                pixels[i..i + 4].copy_from_slice(&[255, 255, 255, 255]);
            }
        }
    }
    let other = sheet_of(24, 20, &pixels, r#"x="1" y="1" width="21" height="18""#);
    assert_ne!(other.rgba, sheet.rgba);
    assert_eq!(
        frame_surface_pixels(&sheet, &frame, 96),
        frame_surface_pixels(&other, &frame, 96)
    );
}
