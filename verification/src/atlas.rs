//! The spritesheet atlas: an XML document whose `SubTexture` elements give
//! each frame's name and rectangle. A frame belongs to the animation whose
//! name is the frame's name without its trailing digits.

use vstd::prelude::*;

use quick_xml::events::Event;
use quick_xml::{Reader, XmlVersion};

use crate::spritesheet::{
    frames_under, lemma_adding_a_frame_appends_it, with_frame, AnimationFrame, AnimationFrames,
};
use crate::text::{
    chars_of, parse_u32, parsed_u32, same_text, trim_trailing_digits, without_trailing_digits,
};

verus! {

#[verifier::external_type_specification]
#[verifier::external_body]
#[verifier::reject_recursive_types(R)]
pub struct ExXmlReader<R>(Reader<R>);

/// An attribute of an element: its name and its decoded, normalized value.
pub struct XmlAttribute {
    pub key: String,
    pub value: String,
}

/// What one read of the XML reader gave.
pub enum XmlEvent {
    /// An empty element (`<name .../>`): its name's bytes and its
    /// attributes, `None` for one that could not be read or decoded.
    Empty { name: Vec<u8>, attributes: Vec<Option<XmlAttribute>> },
    /// The end of the document.
    Eof,
    /// Any other event.
    Other,
    /// The reader found the document malformed.
    Malformed,
}

/// An event, with its bytes and texts as sequences.
pub enum XmlEventView {
    Empty { name: Seq<u8>, attributes: Seq<Option<(Seq<char>, Seq<char>)>> },
    Eof,
    Other,
    Malformed,
}

/// An attribute as a (key, value) pair of texts.
pub open spec fn attribute_view(attribute: Option<XmlAttribute>) -> Option<(Seq<char>, Seq<char>)> {
    match attribute {
        Some(a) => Some((a.key@, a.value@)),
        None => None,
    }
}

impl View for XmlEvent {
    type V = XmlEventView;

    open spec fn view(&self) -> XmlEventView {
        match self {
            XmlEvent::Empty { name, attributes } => XmlEventView::Empty {
                name: name@,
                attributes: attributes@.map_values(|a: Option<XmlAttribute>| attribute_view(a)),
            },
            XmlEvent::Eof => XmlEventView::Eof,
            XmlEvent::Other => XmlEventView::Other,
            XmlEvent::Malformed => XmlEventView::Malformed,
        }
    }
}

/// The end of the document or an error: the last event that is read.
pub open spec fn ends_reading(event: XmlEventView) -> bool {
    event is Eof || event is Malformed
}

/// A run of events that ends at its first end of document or error.
pub open spec fn ends_once(events: Seq<XmlEventView>) -> bool {
    &&& events.len() > 0
    &&& ends_reading(events.last())
    &&& forall|i: int| 0 <= i < events.len() - 1 ==> !ends_reading(#[trigger] events[i])
}

/// The events that quick-xml's `Reader::from_str`, with text trimming on,
/// gives for `xml` through successive `read_event` calls, up to and
/// including the first end of document or error.
pub uninterp spec fn xml_events(xml: Seq<char>) -> Seq<XmlEventView>;

/// The events that `reader` has still to give, up to and including the
/// first end of document or error: what the reader holds, as a collection
/// of events. A reader is a slice and a parse state, so its value fixes
/// these events. After that end or error nothing is said of the reader: a
/// finished reader gives `Eof` again without changing, and one that met an
/// error goes on parsing.
pub uninterp spec fn pending_events(reader: Reader<&[u8]>) -> Seq<XmlEventView>;

/// Calls quick-xml's `Reader::from_str` on `xml` and turns text trimming
/// on (`config_mut().trim_text(true)`). Trusted: the reader has the events
/// of `xml` to give, and reading them ends, at the end of the document or
/// at an error.
#[verifier::external_body]
fn xml_reader(xml: &str) -> (reader: Reader<&[u8]>)
    ensures
        pending_events(reader) == xml_events(xml@),
        ends_once(pending_events(reader)),
{
    let mut reader = Reader::from_str(xml);
    reader.config_mut().trim_text(true);
    reader
}

/// Calls quick-xml's `Reader::read_event` and converts the event; for an
/// empty element it reads the element's name (`name()`) and its
/// attributes (`attributes()`), each key decoded lossily from UTF-8 and each
/// value by `decoded_and_normalized_value` for XML 1.0. Trusted: the event
/// is the next one the reader had to give, and unless it is the end of the
/// document or an error, the reader gives the rest afterwards.
#[verifier::external_body]
fn next_xml_event(reader: &mut Reader<&[u8]>) -> (event: XmlEvent)
    requires
        pending_events(*old(reader)).len() > 0,
    ensures
        event@ == pending_events(*old(reader))[0],
        !ends_reading(event@) ==> pending_events(*final(reader)) == pending_events(
            *old(reader),
        ).drop_first(),
{
    match reader.read_event() {
        Ok(Event::Empty(element)) => XmlEvent::Empty {
            name: element.name().as_ref().to_vec(),
            attributes: element.attributes().map(|attribute| {
                let attribute = attribute.ok()?;
                let value = attribute.decoded_and_normalized_value(XmlVersion::Explicit1_0, reader.decoder()).ok()?;
                Some(XmlAttribute { key: String::from_utf8_lossy(attribute.key.as_ref()).into_owned(), value: value.into_owned() })
            }).collect(),
        },
        Ok(Event::Eof) => XmlEvent::Eof,
        Ok(_) => XmlEvent::Other,
        Err(_) => XmlEvent::Malformed,
    }
}

/// A field of a frame's rectangle.
#[derive(Clone, Copy, Debug, PartialEq, Eq, Structural)]
pub enum FrameField {
    X,
    Y,
    Width,
    Height,
}

/// Why the atlas could not be read.
#[derive(Clone, Copy, Debug, PartialEq, Eq, Structural)]
pub enum AtlasError {
    /// The XML reader found the document malformed.
    MalformedXml,
    /// An attribute of a `SubTexture` element could not be read or decoded.
    MalformedAttribute,
    /// A `SubTexture` element has no `name`.
    MissingName,
    /// A `SubTexture` element lacks a field of its rectangle.
    MissingField(FrameField),
    /// A field of a `SubTexture` element's rectangle is no `u32`.
    InvalidField(FrameField),
}

/// The attribute that holds a field.
pub open spec fn field_key(field: FrameField) -> Seq<char> {
    match field {
        FrameField::X => seq!['x'],
        FrameField::Y => seq!['y'],
        FrameField::Width => seq!['w', 'i', 'd', 't', 'h'],
        FrameField::Height => seq!['h', 'e', 'i', 'g', 'h', 't'],
    }
}

/// The attribute that holds a frame's name.
pub open spec fn name_key() -> Seq<char> {
    seq!['n', 'a', 'm', 'e']
}

/// The bytes of the element name of frames.
pub open spec fn subtexture_tag() -> Seq<u8> {
    seq![83u8, 117u8, 98u8, 84u8, 101u8, 120u8, 116u8, 117u8, 114u8, 101u8]
}

/// The value of the attribute called `key`; where the key occurs more than
/// once, the last occurrence counts.
pub open spec fn attribute_value(attributes: Seq<(Seq<char>, Seq<char>)>, key: Seq<char>) -> Option<
    Seq<char>,
>
    decreases attributes.len(),
{
    if attributes.len() == 0 {
        None
    } else if attributes.last().0 == key {
        Some(attributes.last().1)
    } else {
        attribute_value(attributes.drop_last(), key)
    }
}

/// A field of the rectangle, read from its attribute as a `u32`.
pub open spec fn frame_field(attributes: Seq<(Seq<char>, Seq<char>)>, field: FrameField) -> Result<
    u32,
    AtlasError,
> {
    match attribute_value(attributes, field_key(field)) {
        None => Err(AtlasError::MissingField(field)),
        Some(text) => match parsed_u32(text) {
            Some(value) => Ok(value),
            None => Err(AtlasError::InvalidField(field)),
        },
    }
}

/// The rectangle that the attributes give, its fields read in the order x,
/// y, width, height.
pub open spec fn frame_rectangle(attributes: Seq<(Seq<char>, Seq<char>)>) -> Result<
    AnimationFrame,
    AtlasError,
> {
    match frame_field(attributes, FrameField::X) {
        Err(e) => Err(e),
        Ok(x) => match frame_field(attributes, FrameField::Y) {
            Err(e) => Err(e),
            Ok(y) => match frame_field(attributes, FrameField::Width) {
                Err(e) => Err(e),
                Ok(width) => match frame_field(attributes, FrameField::Height) {
                    Err(e) => Err(e),
                    Ok(height) => Ok(AnimationFrame { x, y, width, height }),
                },
            },
        },
    }
}

/// The animation name and the frame that a `SubTexture` element's
/// attributes give: every attribute must be readable, the name must be
/// there, and the animation is the name without its trailing digits.
pub open spec fn element_frame(attributes: Seq<Option<(Seq<char>, Seq<char>)>>) -> Result<
    (Seq<char>, AnimationFrame),
    AtlasError,
> {
    if exists|i: int| 0 <= i < attributes.len() && attributes[i] is None {
        Err(AtlasError::MalformedAttribute)
    } else {
        let pairs = attributes.map_values(|a: Option<(Seq<char>, Seq<char>)>| a->0);
        match attribute_value(pairs, name_key()) {
            None => Err(AtlasError::MissingName),
            Some(name) => match frame_rectangle(pairs) {
                Err(e) => Err(e),
                Ok(frame) => Ok((without_trailing_digits(name), frame)),
            },
        }
    }
}

/// The frames of each animation that a run of XML events gives, or the
/// first error in it.
pub open spec fn atlas_frames(events: Seq<XmlEventView>) -> Result<
    Map<Seq<char>, Seq<AnimationFrame>>,
    AtlasError,
>
    decreases events.len(),
{
    if events.len() == 0 {
        Ok(Map::empty())
    } else {
        match atlas_frames(events.drop_last()) {
            Err(e) => Err(e),
            Ok(frames) => match events.last() {
                XmlEventView::Malformed => Err(AtlasError::MalformedXml),
                XmlEventView::Empty { name, attributes } => if name == subtexture_tag() {
                    match element_frame(attributes) {
                        Ok((animation, frame)) => Ok(with_frame(frames, animation, frame)),
                        Err(e) => Err(e),
                    }
                } else {
                    Ok(frames)
                },
                _ => Ok(frames),
            },
        }
    }
}

/// The rectangles of the `SubTexture` elements among `events` whose
/// animation name is `name`, one for each such element, in document order.
pub open spec fn subtextures_named(events: Seq<XmlEventView>, name: Seq<char>) -> Seq<
    AnimationFrame,
>
    decreases events.len(),
{
    if events.len() == 0 {
        Seq::empty()
    } else {
        let before = subtextures_named(events.drop_last(), name);
        match events.last() {
            XmlEventView::Empty { name: tag, attributes } => if tag == subtexture_tag() {
                match element_frame(attributes) {
                    Ok((animation, frame)) => if animation == name {
                        before.push(frame)
                    } else {
                        before
                    },
                    Err(_) => before,
                }
            } else {
                before
            },
            _ => before,
        }
    }
}

/// Every `SubTexture` element adds exactly one frame: when the atlas reads
/// without error, an animation's frames are the rectangles of its
/// `SubTexture` elements, as many as there are and in document order.
pub proof fn lemma_one_frame_per_element(events: Seq<XmlEventView>, name: Seq<char>)
    requires
        atlas_frames(events) is Ok,
    ensures
        frames_under(atlas_frames(events)->Ok_0, name) == subtextures_named(events, name),
    decreases events.len(),
{
    if events.len() > 0 {
        let rest = events.drop_last();
        assert(atlas_frames(rest) is Ok);
        lemma_one_frame_per_element(rest, name);
        let before = atlas_frames(rest)->Ok_0;
        match events.last() {
            XmlEventView::Empty { name: tag, attributes } => {
                if tag == subtexture_tag() {
                    match element_frame(attributes) {
                        Ok((animation, frame)) => {
                            lemma_adding_a_frame_appends_it(before, animation, frame, name);
                        },
                        Err(_) => {},
                    }
                }
            },
            _ => {},
        }
    } else {
        assert(frames_under(Map::<Seq<char>, Seq<AnimationFrame>>::empty(), name) =~= Seq::<
            AnimationFrame,
        >::empty());
    }
}

/// Whether an element's name is `SubTexture`.
fn is_subtexture(name: &Vec<u8>) -> (found: bool)
    ensures
        found == (name@ == subtexture_tag()),
{
    // the bytes of "SubTexture"
    let tag: [u8; 10] = [83, 117, 98, 84, 101, 120, 116, 117, 114, 101];
    assert(tag@ =~= subtexture_tag());
    if name.len() != 10 {
        return false;
    }
    let mut i: usize = 0;
    while i < 10
        invariant
            i <= 10,
            name.len() == 10,
            tag@ == subtexture_tag(),
            forall|j: int| 0 <= j < i ==> name@[j] == tag@[j],
        decreases 10 - i,
    {
        if name[i] != tag[i] {
            return false;
        }
        i = i + 1;
    }
    assert(name@ =~= subtexture_tag());
    true
}

/// The value of the attribute called `key`, the last one where it occurs
/// more than once.
fn attribute_lookup(pairs: &Vec<(Vec<char>, Vec<char>)>, key: &[char]) -> (value: Option<
    Vec<char>,
>)
    ensures
        match value {
            Some(v) => attribute_value(pairs_view(pairs@), key@) == Some(v@),
            None => attribute_value(pairs_view(pairs@), key@) is None,
        },
{
    let mut i: usize = pairs.len();
    assert(pairs_view(pairs@).take(i as int) =~= pairs_view(pairs@));
    while i > 0
        invariant
            i <= pairs.len(),
            attribute_value(pairs_view(pairs@).take(i as int), key@) == attribute_value(
                pairs_view(pairs@),
                key@,
            ),
        decreases i,
    {
        let ghost prefix = pairs_view(pairs@).take(i as int);
        assert(prefix.drop_last() =~= pairs_view(pairs@).take(i - 1));
        assert(prefix.last() == (pairs@[i - 1].0@, pairs@[i - 1].1@));
        if same_text(pairs[i - 1].0.as_slice(), key) {
            return Some(pairs[i - 1].1.clone());
        }
        i = i - 1;
    }
    assert(pairs_view(pairs@).take(0) =~= Seq::<(Seq<char>, Seq<char>)>::empty());
    None
}

/// Attribute pairs as pairs of texts.
pub open spec fn pairs_view(pairs: Seq<(Vec<char>, Vec<char>)>) -> Seq<(Seq<char>, Seq<char>)> {
    pairs.map_values(|p: (Vec<char>, Vec<char>)| (p.0@, p.1@))
}

/// The attributes as texts.
pub open spec fn attributes_view(attributes: Seq<Option<XmlAttribute>>) -> Seq<
    Option<(Seq<char>, Seq<char>)>,
> {
    attributes.map_values(|a: Option<XmlAttribute>| attribute_view(a))
}

/// Reads a field of the rectangle.
fn read_field(pairs: &Vec<(Vec<char>, Vec<char>)>, field: FrameField) -> (value: Result<
    u32,
    AtlasError,
>)
    ensures
        value == frame_field(pairs_view(pairs@), field),
{
    let key = match field {
        FrameField::X => {
            proof { reveal_strlit("x"); }
            chars_of("x")
        },
        FrameField::Y => {
            proof { reveal_strlit("y"); }
            chars_of("y")
        },
        FrameField::Width => {
            proof { reveal_strlit("width"); }
            chars_of("width")
        },
        FrameField::Height => {
            proof { reveal_strlit("height"); }
            chars_of("height")
        },
    };
    assert(key@ =~= field_key(field));
    match attribute_lookup(pairs, key.as_slice()) {
        None => Err(AtlasError::MissingField(field)),
        Some(text) => match parse_u32(text.as_slice()) {
            Some(value) => Ok(value),
            None => Err(AtlasError::InvalidField(field)),
        },
    }
}

/// The animation name and the frame that a `SubTexture` element's
/// attributes give.
pub fn read_frame(attributes: &Vec<Option<XmlAttribute>>) -> (result: Result<
    (Vec<char>, AnimationFrame),
    AtlasError,
>)
    ensures
        match result {
            Ok((name, frame)) => element_frame(attributes_view(attributes@)) == Ok::<
                (Seq<char>, AnimationFrame),
                AtlasError,
            >((name@, frame)),
            Err(e) => element_frame(attributes_view(attributes@)) == Err::<
                (Seq<char>, AnimationFrame),
                AtlasError,
            >(e),
        },
{
    let ghost view = attributes_view(attributes@);
    let mut pairs: Vec<(Vec<char>, Vec<char>)> = Vec::new();
    let mut i: usize = 0;
    while i < attributes.len()
        invariant
            i <= attributes.len(),
            view == attributes_view(attributes@),
            forall|j: int| 0 <= j < i ==> view[j] is Some,
            pairs_view(pairs@) == view.take(i as int).map_values(
                |a: Option<(Seq<char>, Seq<char>)>| a->0,
            ),
        decreases attributes.len() - i,
    {
        match &attributes[i] {
            None => {
                assert(view[i as int] is None);
                return Err(AtlasError::MalformedAttribute);
            },
            Some(attribute) => {
                let key = chars_of(attribute.key.as_str());
                let value = chars_of(attribute.value.as_str());
                assert(view[i as int] == Some((key@, value@)));
                let ghost before = pairs_view(pairs@);
                pairs.push((key, value));
                assert(pairs_view(pairs@) =~= before.push((key@, value@)));
                assert(pairs_view(pairs@) =~= view.take(i as int + 1).map_values(
                    |a: Option<(Seq<char>, Seq<char>)>| a->0,
                ));
            },
        }
        i = i + 1;
    }
    let ghost all = view.map_values(|a: Option<(Seq<char>, Seq<char>)>| a->0);
    assert(view.take(attributes.len() as int) =~= view);
    assert(!exists|j: int| 0 <= j < view.len() && view[j] is None);
    proof { reveal_strlit("name"); }
    let name_text = chars_of("name");
    assert(name_text@ =~= name_key());
    let name = match attribute_lookup(&pairs, name_text.as_slice()) {
        None => {
            return Err(AtlasError::MissingName);
        },
        Some(name) => name,
    };
    let x = match read_field(&pairs, FrameField::X) {
        Ok(v) => v,
        Err(e) => {
            return Err(e);
        },
    };
    let y = match read_field(&pairs, FrameField::Y) {
        Ok(v) => v,
        Err(e) => {
            return Err(e);
        },
    };
    let width = match read_field(&pairs, FrameField::Width) {
        Ok(v) => v,
        Err(e) => {
            return Err(e);
        },
    };
    let height = match read_field(&pairs, FrameField::Height) {
        Ok(v) => v,
        Err(e) => {
            return Err(e);
        },
    };
    let animation = trim_trailing_digits(name.as_slice());
    Ok((animation, AnimationFrame { x, y, width, height }))
}

/// Events as their views.
pub open spec fn events_view(events: Seq<XmlEvent>) -> Seq<XmlEventView> {
    events.map_values(|e: XmlEvent| e@)
}

/// Reads every event of the document, up to and including the end of the
/// document or the first error.
fn read_xml_events(xml: &str) -> (events: Vec<XmlEvent>)
    ensures
        events_view(events@) == xml_events(xml@),
{
    let mut reader = xml_reader(xml);
    let ghost all = pending_events(reader);
    let mut events: Vec<XmlEvent> = Vec::new();
    assert(all.skip(0) =~= all);
    loop
        invariant
            all == xml_events(xml@),
            ends_once(all),
            events.len() < all.len(),
            pending_events(reader) == all.skip(events.len() as int),
            events_view(events@) == all.take(events.len() as int),
        decreases all.len() - events.len(),
    {
        let ghost k = events.len() as int;
        let event = next_xml_event(&mut reader);
        let done = match event {
            XmlEvent::Eof => true,
            XmlEvent::Malformed => true,
            _ => false,
        };
        events.push(event);
        proof {
            assert(events_view(events@) =~= all.take(k + 1));
            assert(all.skip(k).drop_first() =~= all.skip(k + 1));
        }
        if done {
            assert(all.take(k + 1) =~= all);
            return events;
        }
        assert(!ends_reading(all[k]));
    }
}

/// The frames of each animation that a run of XML events gives: every
/// empty `SubTexture` element adds a frame to the animation named by its
/// `name` without trailing digits, in order; the first malformed event or
/// unreadable element is the error.
pub fn frames_from_events(events: &[XmlEvent]) -> (frames: Result<AnimationFrames, AtlasError>)
    ensures
        match frames {
            Ok(table) => atlas_frames(events_view(events@)) == Ok::<
                Map<Seq<char>, Seq<AnimationFrame>>,
                AtlasError,
            >(table@),
            Err(e) => atlas_frames(events_view(events@)) == Err::<
                Map<Seq<char>, Seq<AnimationFrame>>,
                AtlasError,
            >(e),
        },
        frames matches Ok(table) ==> forall|name: Seq<char>| #[trigger]
            frames_under(table@, name) == subtextures_named(events_view(events@), name),
{
    let ghost all = events_view(events@);
    let mut table = AnimationFrames::new();
    let mut k: usize = 0;
    assert(all.take(0) =~= Seq::<XmlEventView>::empty());
    while k < events.len()
        invariant
            k <= events.len(),
            all == events_view(events@),
            atlas_frames(all.take(k as int)) == Ok::<Map<Seq<char>, Seq<AnimationFrame>>, AtlasError>(
                table@,
            ),
        decreases events.len() - k,
    {
        proof {
            assert(all.take(k + 1).drop_last() =~= all.take(k as int));
            assert(all.take(k + 1).last() == events@[k as int]@);
        }
        match &events[k] {
            XmlEvent::Malformed => {
                proof {
                    lemma_atlas_error_stays(all, k + 1);
                }
                return Err(AtlasError::MalformedXml);
            },
            XmlEvent::Empty { name, attributes } => {
                if is_subtexture(name) {
                    match read_frame(attributes) {
                        Ok((animation, frame)) => {
                            table.push_frame(animation, frame);
                        },
                        Err(e) => {
                            proof {
                                lemma_atlas_error_stays(all, k + 1);
                            }
                            return Err(e);
                        },
                    }
                }
            },
            _ => {},
        }
        k = k + 1;
    }
    assert(all.take(events.len() as int) =~= all);
    proof {
        assert forall|name: Seq<char>| #[trigger]
            frames_under(table@, name) == subtextures_named(all, name) by {
            lemma_one_frame_per_element(all, name);
        }
    }
    Ok(table)
}

/// Reads the frames of each animation from the atlas XML.
pub fn parse_frames(xml: &str) -> (frames: Result<AnimationFrames, AtlasError>)
    ensures
        match frames {
            Ok(table) => atlas_frames(xml_events(xml@)) == Ok::<
                Map<Seq<char>, Seq<AnimationFrame>>,
                AtlasError,
            >(table@),
            Err(e) => atlas_frames(xml_events(xml@)) == Err::<
                Map<Seq<char>, Seq<AnimationFrame>>,
                AtlasError,
            >(e),
        },
        frames matches Ok(table) ==> forall|name: Seq<char>| #[trigger]
            frames_under(table@, name) == subtextures_named(xml_events(xml@), name),
{
    let events = read_xml_events(xml);
    frames_from_events(events.as_slice())
}

/// Once the events read so far give an error, every longer run gives the
/// same error.
proof fn lemma_atlas_error_stays(events: Seq<XmlEventView>, j: int)
    requires
        0 <= j <= events.len(),
        atlas_frames(events.take(j)) is Err,
    ensures
        atlas_frames(events) == atlas_frames(events.take(j)),
    decreases events.len() - j,
{
    if j < events.len() {
        assert(events.take(j + 1).drop_last() =~= events.take(j));
        lemma_atlas_error_stays(events, j + 1);
    } else {
        assert(events.take(j) =~= events);
    }
}

} // verus!
