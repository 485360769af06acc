use pocket_femtanyl::animation::Animation;
use pocket_femtanyl::atlas::{frames_from_events, parse_frames, AtlasError, FrameField, XmlAttribute, XmlEvent};
use pocket_femtanyl::spritesheet::{AnimationFrame, PngFailure, Spritesheet, SpritesheetError};

fn encode_png(width: u32, height: u32, color: png::ColorType, pixels: &[u8]) -> Vec<u8> {
    let mut bytes = Vec::new();
    {
        let mut encoder = png::Encoder::new(&mut bytes, width, height);
        encoder.set_color(color);
        encoder.set_depth(png::BitDepth::Eight);
        let mut writer = encoder.write_header().unwrap();
        writer.write_image_data(pixels).unwrap();
    }
    bytes
}

const ATLAS: &str = r#"<?xml version="1.0" encoding="utf-8"?>
<TextureAtlas imagePath="sheet.png">
    <SubTexture name="idle0000" x="0" y="0" width="2" height="1"/>
    <SubTexture name="idle0001" x="2" y="0" width="2" height="1"/>
    <SubTexture name="left0000" x="0" y="1" width="2" height="1"/>
    <SubTexture name="idle0002" x="0" y="0" width="2" height="1"/>
    <SubTexture name="up12" x="+1" y="1" width="3" height="1"/>
</TextureAtlas>
"#;

fn sheet() -> Spritesheet {
    let pixels: Vec<u8> = (0..32).collect();
    let png = encode_png(4, 2, png::ColorType::Rgba, &pixels);
    Spritesheet::from_assets(&png, ATLAS).unwrap()
}

fn frame(x: u32, y: u32, width: u32, height: u32) -> AnimationFrame {
    AnimationFrame { x, y, width, height }
}

#[test]
fn loads_image_and_atlas() {
    let sheet = sheet();
    assert_eq!(sheet.width, 4);
    assert_eq!(sheet.rgba, (0..32).collect::<Vec<u8>>());
    assert_eq!(
        sheet.frames(Animation::Idle),
        &[frame(0, 0, 2, 1), frame(2, 0, 2, 1), frame(0, 0, 2, 1)]
    );
    assert_eq!(sheet.frames(Animation::Left), &[frame(0, 1, 2, 1)]);
    assert_eq!(sheet.frames(Animation::Up), &[frame(1, 1, 3, 1)]);
    assert!(sheet.frames(Animation::Down).is_empty());
    assert!(sheet.frames(Animation::Right).is_empty());
}

#[test]
fn frames_loop_with_ticks() {
    let sheet = sheet();
    assert_eq!(sheet.frame_for_tick(Animation::Idle, 0), Some(frame(0, 0, 2, 1)));
    assert_eq!(sheet.frame_for_tick(Animation::Idle, 1), Some(frame(2, 0, 2, 1)));
    assert_eq!(sheet.frame_for_tick(Animation::Idle, 4), Some(frame(2, 0, 2, 1)));
    assert_eq!(sheet.frame_for_tick(Animation::Left, 17), Some(frame(0, 1, 2, 1)));
    assert_eq!(sheet.frame_for_tick(Animation::Down, 3), None);
}

#[test]
fn distinct_frames_in_first_seen_order() {
    let sheet = sheet();
    assert_eq!(
        sheet.distinct_frames(),
        vec![frame(0, 0, 2, 1), frame(2, 0, 2, 1), frame(0, 1, 2, 1), frame(1, 1, 3, 1)]
    );
}

#[test]
fn rejects_what_is_no_png() {
    assert_eq!(
        Spritesheet::from_assets(b"not a png at all", ATLAS).err(),
        Some(SpritesheetError::Png(PngFailure::NotPng))
    );
}

#[test]
fn rejects_images_that_are_not_rgba8() {
    let png = encode_png(1, 1, png::ColorType::Rgb, &[1, 2, 3]);
    assert_eq!(
        Spritesheet::from_assets(&png, ATLAS).err(),
        Some(SpritesheetError::NotRgba8 { color_type: 2, bit_depth: 8 })
    );
}

#[test]
fn atlas_errors() {
    let err = |xml: &str| parse_frames(xml).err();
    assert_eq!(err(r#"<a><SubTexture name="idle0" x="1" y="2" width="3"/></a>"#), Some(AtlasError::MissingField(FrameField::Height)));
    assert_eq!(err(r#"<a><SubTexture x="1" y="2" width="3" height="4"/></a>"#), Some(AtlasError::MissingName));
    assert_eq!(err(r#"<a><SubTexture name="idle0" x="-1" y="2" width="3" height="4"/></a>"#), Some(AtlasError::InvalidField(FrameField::X)));
    assert_eq!(err(r#"<a><SubTexture name="idle0" x="1" y="two" width="3" height="4"/></a>"#), Some(AtlasError::InvalidField(FrameField::Y)));
    assert_eq!(err(r#"<a><SubTexture name="idle0" x="1" y="2" width="3" height="4" x="5"/></a>"#), Some(AtlasError::MalformedAttribute));
    assert_eq!(err(r#"<a><SubTexture name="idle0" x="1"/></b>"#), Some(AtlasError::MissingField(FrameField::Y)));
    assert_eq!(err(r#"<a></b>"#), Some(AtlasError::MalformedXml));
}

#[test]
fn only_empty_subtexture_elements_count() {
    let sheet_png = encode_png(1, 1, png::ColorType::Rgba, &[0, 0, 0, 0]);
    let xml = r#"<a><SubTexture name="idle0" x="1" y="2" width="3" height="4"></SubTexture><Other name="idle1" x="1" y="2" width="3" height="4"/><!-- c --></a>"#;
    let sheet = Spritesheet::from_assets(&sheet_png, xml).unwrap();
    assert!(sheet.frames(Animation::Idle).is_empty());
}

#[test]
fn counts_frames_per_animation() {
    let mut xml = String::from("<TextureAtlas imagePath=\"sheet.png\">\n");
    for (name, count) in [("idle", 9), ("left", 7), ("down", 7), ("up", 8), ("right", 7)] {
        for i in 0..count {
            xml.push_str(&format!(
                "  <SubTexture name=\"{name}{i:04}\" x=\"{}\" y=\"0\" width=\"1\" height=\"1\" frameX=\"-3\"/>\n",
                i
            ));
        }
    }
    xml.push_str("</TextureAtlas>\n");
    let frames = parse_frames(&xml).unwrap();
    let count = |name: &str| frames.get(&name.chars().collect::<Vec<char>>()).len();
    assert_eq!(count("idle"), 9);
    assert_eq!(count("left"), 7);
    assert_eq!(count("down"), 7);
    assert_eq!(count("up"), 8);
    assert_eq!(count("right"), 7);
    assert_eq!(count("missing"), 0);
}

fn attribute(key: &str, value: &str) -> Option<XmlAttribute> {
    Some(XmlAttribute { key: key.to_string(), value: value.to_string() })
}

#[test]
fn frames_from_events_follow_the_elements() {
    let subtexture = |name: &str, x: &str| XmlEvent::Empty {
        name: b"SubTexture".to_vec(),
        attributes: vec![
            attribute("name", name),
            attribute("x", x),
            attribute("y", "2"),
            attribute("width", "3"),
            attribute("height", "4"),
        ],
    };
    let events = vec![
        XmlEvent::Other,
        subtexture("right07", "1"),
        XmlEvent::Empty { name: b"Other".to_vec(), attributes: vec![None] },
        subtexture("right08", "5"),
        XmlEvent::Eof,
    ];
    let frames = frames_from_events(&events).unwrap();
    let right: Vec<char> = "right".chars().collect();
    assert_eq!(frames.get(&right), &[frame(1, 2, 3, 4), frame(5, 2, 3, 4)]);

    let broken = vec![subtexture("idle1", "1"), XmlEvent::Malformed, subtexture("idle2", "x")];
    assert_eq!(frames_from_events(&broken).err(), Some(AtlasError::MalformedXml));
    let unreadable = vec![XmlEvent::Empty { name: b"SubTexture".to_vec(), attributes: vec![attribute("name", "a"), None] }];
    assert_eq!(frames_from_events(&unreadable).err(), Some(AtlasError::MalformedAttribute));
    let repeated = vec![XmlEvent::Empty {
        name: b"SubTexture".to_vec(),
        attributes: vec![
            attribute("name", "up1"),
            attribute("x", "1"),
            attribute("y", "2"),
            attribute("width", "3"),
            attribute("height", "4"),
            attribute("x", "9"),
        ],
    }];
    let up: Vec<char> = "up".chars().collect();
    assert_eq!(frames_from_events(&repeated).unwrap().get(&up), &[frame(9, 2, 3, 4)]);
}

#[test]
fn every_shown_frame_is_among_the_distinct_ones() {
    let sheet = sheet();
    let distinct = sheet.distinct_frames();
    for animation in Animation::ALL {
        for tick in 0..10 {
            if let Some(frame) = sheet.frame_for_tick(animation, tick) {
                assert!(distinct.contains(&frame));
            }
        }
    }
    assert_eq!(sheet.rgba.len(), 4 * 2 * 4);
}
