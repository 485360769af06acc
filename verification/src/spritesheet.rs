//! The spritesheet: one RGBA image holding every frame, and the frames of
//! each animation as rectangles of it.

use vstd::prelude::*;

use crate::animation::{animation_name, Animation};
use crate::atlas::{atlas_frames, parse_frames, xml_events, AtlasError};
use crate::text::{chars_of, same_text};

verus! {

/// A frame's rectangle in the spritesheet image, in pixels.
#[derive(Clone, Copy, Debug, PartialEq, Eq, Hash, Structural)]
pub struct AnimationFrame {
    pub x: u32,
    pub y: u32,
    pub width: u32,
    pub height: u32,
}

/// Builds the map that a list of (name, frames) entries stands for; a later
/// entry for a name replaces an earlier one.
pub open spec fn entries_map(entries: Seq<(Seq<char>, Seq<AnimationFrame>)>) -> Map<
    Seq<char>,
    Seq<AnimationFrame>,
>
    decreases entries.len(),
{
    if entries.len() == 0 {
        Map::empty()
    } else {
        entries_map(entries.drop_last()).insert(entries.last().0, entries.last().1)
    }
}

/// The frames of every animation, by animation name, in atlas order.
pub struct AnimationFrames {
    names: Vec<Vec<char>>,
    frames: Vec<Vec<AnimationFrame>>,
}

/// The frames listed under `name`, none when it is absent.
pub open spec fn frames_under(frames: Map<Seq<char>, Seq<AnimationFrame>>, name: Seq<char>) -> Seq<
    AnimationFrame,
> {
    if frames.contains_key(name) {
        frames[name]
    } else {
        Seq::empty()
    }
}

/// Adding a frame appends exactly that frame to the frames of its
/// animation, whatever they already hold, and leaves every other
/// animation's frames as they were.
pub proof fn lemma_adding_a_frame_appends_it(
    frames: Map<Seq<char>, Seq<AnimationFrame>>,
    name: Seq<char>,
    frame: AnimationFrame,
    other: Seq<char>,
)
    ensures
        frames_under(with_frame(frames, name, frame), name) == frames_under(frames, name).push(frame),
        frames_under(with_frame(frames, name, frame), name).len() == frames_under(frames, name).len()
            + 1,
        other != name ==> frames_under(with_frame(frames, name, frame), other) == frames_under(
            frames,
            other,
        ),
{
    if !frames.contains_key(name) {
        assert(Seq::<AnimationFrame>::empty().push(frame) =~= seq![frame]);
    }
}

/// `frames` with `frame` appended to the frames of `name`.
pub open spec fn with_frame(
    frames: Map<Seq<char>, Seq<AnimationFrame>>,
    name: Seq<char>,
    frame: AnimationFrame,
) -> Map<Seq<char>, Seq<AnimationFrame>> {
    if frames.contains_key(name) {
        frames.insert(name, frames[name].push(frame))
    } else {
        frames.insert(name, seq![frame])
    }
}

impl AnimationFrames {
    /// The entries, one per name, in the order in which the names first
    /// appeared.
    pub closed spec fn entries(self) -> Seq<(Seq<char>, Seq<AnimationFrame>)> {
        Seq::new(self.names.len() as nat, |i: int| (self.names@[i]@, self.frames@[i]@))
    }

    #[verifier::type_invariant]
    closed spec fn well_formed(self) -> bool {
        &&& self.names.len() == self.frames.len()
        &&& forall|i: int, j: int|
            0 <= i < j < self.names.len() ==> self.names@[i]@ != self.names@[j]@
    }

    /// No frames for any animation.
    pub fn new() -> (table: Self)
        ensures
            table@ == Map::<Seq<char>, Seq<AnimationFrame>>::empty(),
    {
        let table = AnimationFrames { names: Vec::new(), frames: Vec::new() };
        assert(table.entries() =~= Seq::<(Seq<char>, Seq<AnimationFrame>)>::empty());
        table
    }

    /// The position of `name` among the entries.
    fn position(&self, name: &[char]) -> (found: Option<usize>)
        ensures
            match found {
                Some(i) => i < self.entries().len() && self.entries()[i as int].0 == name@,
                None => forall|i: int|
                    0 <= i < self.entries().len() ==> self.entries()[i].0 != name@,
            },
    {
        proof {
            use_type_invariant(self);
        }
        let mut i: usize = 0;
        while i < self.names.len()
            invariant
                i <= self.names.len(),
                self.names.len() == self.frames.len(),
                forall|j: int| 0 <= j < i ==> self.names@[j]@ != name@,
            decreases self.names.len() - i,
        {
            if same_text(self.names[i].as_slice(), name) {
                return Some(i);
            }
            i = i + 1;
        }
        None
    }

    /// Appends `frame` to the frames of the animation called `name`.
    pub fn push_frame(&mut self, name: Vec<char>, frame: AnimationFrame)
        ensures
            final(self)@ == with_frame(old(self)@, name@, frame),
            final(self)@.contains_key(name@),
            final(self)@[name@] == frames_under(old(self)@, name@).push(frame),
            forall|other: Seq<char>|
                other != name@ ==> frames_under(final(self)@, other) == #[trigger] frames_under(
                    old(self)@,
                    other,
                ),
    {
        proof {
            use_type_invariant(&*self);
            lemma_entries_map_lookup(self.entries());
        }
        let ghost before = self.entries();
        let found = self.position(name.as_slice());
        let mut taken = AnimationFrames::new();
        std::mem::swap(self, &mut taken);
        proof {
            use_type_invariant(&taken);
            assert(taken.entries() == before);
        }
        let AnimationFrames { mut names, mut frames } = taken;
        match found {
            Some(i) => {
                let mut list: Vec<AnimationFrame> = Vec::new();
                std::mem::swap(&mut list, &mut frames[i]);
                list.push(frame);
                frames.set(i, list);
                *self = AnimationFrames { names, frames };
                proof {
                    assert(self.entries() =~= before.update(
                        i as int,
                        (name@, before[i as int].1.push(frame)),
                    ));
                    lemma_entries_map_update(before, i as int, before[i as int].1.push(frame));
                }
            },
            None => {
                let ghost old_names = names@;
                names.push(name);
                let mut list: Vec<AnimationFrame> = Vec::new();
                list.push(frame);
                frames.push(list);
                proof {
                    assert forall|i: int, j: int| 0 <= i < j < names.len() implies names@[i]@
                        != names@[j]@ by {
                        if j == names.len() - 1 {
                            assert(before[i].0 == old_names[i]@);
                        }
                    }
                }
                *self = AnimationFrames { names, frames };
                proof {
                    assert(self.entries() =~= before.push((name@, seq![frame])));
                    assert(self.entries().drop_last() =~= before);
                }
            },
        }
    }

    /// The frames of the animation called `name`, or none.
    pub fn get(&self, name: &[char]) -> (frames: &[AnimationFrame])
        ensures
            frames@ == (if self@.contains_key(name@) {
                self@[name@]
            } else {
                Seq::empty()
            }),
    {
        proof {
            use_type_invariant(self);
            lemma_entries_map_lookup(self.entries());
        }
        match self.position(name) {
            Some(i) => self.frames[i].as_slice(),
            None => &[],
        }
    }
}

impl View for AnimationFrames {
    type V = Map<Seq<char>, Seq<AnimationFrame>>;

    closed spec fn view(&self) -> Map<Seq<char>, Seq<AnimationFrame>> {
        entries_map(self.entries())
    }
}

/// Names that occur once each.
pub open spec fn distinct_names(entries: Seq<(Seq<char>, Seq<AnimationFrame>)>) -> bool {
    forall|i: int, j: int| 0 <= i < j < entries.len() ==> entries[i].0 != entries[j].0
}

/// The map of distinct entries holds exactly their names, each with its
/// frames.
proof fn lemma_entries_map_lookup(entries: Seq<(Seq<char>, Seq<AnimationFrame>)>)
    requires
        distinct_names(entries),
    ensures
        forall|name: Seq<char>| #[trigger]
            entries_map(entries).contains_key(name) <==> exists|i: int|
                0 <= i < entries.len() && entries[i].0 == name,
        forall|i: int|
            0 <= i < entries.len() ==> #[trigger] entries_map(entries)[entries[i].0]
                == entries[i].1,
    decreases entries.len(),
{
    if entries.len() > 0 {
        let rest = entries.drop_last();
        lemma_entries_map_lookup(rest);
        assert forall|name: Seq<char>| #[trigger]
            entries_map(entries).contains_key(name) <==> exists|i: int|
                0 <= i < entries.len() && entries[i].0 == name by {
            if entries_map(rest).contains_key(name) {
                let i = choose|i: int| 0 <= i < rest.len() && rest[i].0 == name;
                assert(entries[i].0 == name);
            }
            if name == entries.last().0 {
                assert(entries[entries.len() - 1].0 == name);
            }
            if exists|i: int| 0 <= i < entries.len() && entries[i].0 == name {
                let i = choose|i: int| 0 <= i < entries.len() && entries[i].0 == name;
                if i < entries.len() - 1 {
                    assert(rest[i].0 == name);
                }
            }
        }
        assert forall|i: int| 0 <= i < entries.len() implies #[trigger] entries_map(entries)[entries[i].0]
            == entries[i].1 by {
            if i < entries.len() - 1 {
                assert(rest[i] == entries[i]);
                assert(entries_map(rest)[rest[i].0] == rest[i].1);
                assert(entries[i].0 != entries[entries.len() - 1].0);
            }
        }
    }
}

/// Replacing the frames of an entry replaces them in the map.
proof fn lemma_entries_map_update(
    entries: Seq<(Seq<char>, Seq<AnimationFrame>)>,
    i: int,
    frames: Seq<AnimationFrame>,
)
    requires
        distinct_names(entries),
        0 <= i < entries.len(),
    ensures
        entries_map(entries.update(i, (entries[i].0, frames))) == entries_map(entries).insert(
            entries[i].0,
            frames,
        ),
    decreases entries.len(),
{
    let updated = entries.update(i, (entries[i].0, frames));
    let rest = entries.drop_last();
    if i == entries.len() - 1 {
        assert(updated.drop_last() =~= rest);
        assert(entries_map(updated) =~= entries_map(entries).insert(entries[i].0, frames));
    } else {
        lemma_entries_map_update(rest, i, frames);
        assert(updated.drop_last() =~= rest.update(i, (entries[i].0, frames)));
        assert(entries[i].0 != entries.last().0);
        assert(entries_map(updated) =~= entries_map(entries).insert(entries[i].0, frames));
    }
}

/// The spritesheet image and the frames of each animation.
pub struct Spritesheet {
    /// The image's width in pixels.
    pub width: u32,
    /// The image's pixels, four bytes (red, green, blue, alpha) each, row
    /// by row.
    pub rgba: Vec<u8>,
    pub(crate) animations: AnimationFrames,
}

/// `s` with every value after its first occurrence left out.
pub open spec fn first_occurrences(s: Seq<AnimationFrame>) -> Seq<AnimationFrame>
    decreases s.len(),
{
    if s.len() == 0 {
        s
    } else {
        let kept = first_occurrences(s.drop_last());
        if kept.contains(s.last()) {
            kept
        } else {
            kept.push(s.last())
        }
    }
}

/// What a spritesheet holds: the image's width, its bytes, and the frames
/// of each animation by name.
pub struct SpritesheetView {
    pub width: u32,
    pub rgba: Seq<u8>,
    pub frames: Map<Seq<char>, Seq<AnimationFrame>>,
}

impl View for Spritesheet {
    type V = SpritesheetView;

    closed spec fn view(&self) -> SpritesheetView {
        SpritesheetView { width: self.width, rgba: self.rgba@, frames: self.animations@ }
    }
}

impl Spritesheet {
    /// The frames of each animation, by animation name.
    pub open spec fn frame_table(&self) -> Map<Seq<char>, Seq<AnimationFrame>> {
        self@.frames
    }

    /// The frames of `animation`: those listed under its name, or none.
    pub open spec fn animation_frames(&self, animation: Animation) -> Seq<AnimationFrame> {
        let table = self.frame_table();
        if table.contains_key(animation_name(animation)) {
            table[animation_name(animation)]
        } else {
            Seq::empty()
        }
    }

    /// The frames of every animation, in the order of `Animation::ALL`.
    pub open spec fn all_frames(&self) -> Seq<AnimationFrame> {
        self.animation_frames(Animation::Idle) + self.animation_frames(Animation::Left)
            + self.animation_frames(Animation::Down) + self.animation_frames(Animation::Up)
            + self.animation_frames(Animation::Right)
    }

    /// A spritesheet of the given image and frames.
    pub fn new(width: u32, rgba: Vec<u8>, animations: AnimationFrames) -> (sheet: Self)
        ensures
            sheet@.width == width,
            sheet@.rgba == rgba@,
            sheet@.frames == animations@,
    {
        Spritesheet { width, rgba, animations }
    }

    /// The view's width and image are the public fields.
    pub(crate) proof fn lemma_view_fields(&self)
        ensures
            self@.width == self.width,
            self@.rgba == self.rgba@,
    {
    }

    /// The frames of `animation`, in atlas order.
    pub fn frames(&self, animation: Animation) -> (frames: &[AnimationFrame])
        ensures
            frames@ == self.animation_frames(animation),
            frames@ == frames_under(self@.frames, animation_name(animation)),
    {
        let name = chars_of(animation.name());
        self.animations.get(name.as_slice())
    }

    /// The frame of `animation` shown at the `tick`th frame time since it
    /// started: the animation loops, so ticks count modulo its length.
    /// `None` when the animation has no frames.
    pub fn frame_for_tick(&self, animation: Animation, tick: usize) -> (frame: Option<
        AnimationFrame,
    >)
        ensures
            self.animation_frames(animation).len() == 0 ==> frame is None,
            self.animation_frames(animation).len() > 0 ==> frame == Some(
                self.animation_frames(animation)[tick as int % self.animation_frames(
                    animation,
                ).len() as int],
            ),
    {
        let frames = self.frames(animation);
        if frames.len() == 0 {
            None
        } else {
            Some(frames[tick % frames.len()])
        }
    }

    /// Every frame of every animation once, in the order in which each
    /// first appears going through `Animation::ALL`.
    pub fn distinct_frames(&self) -> (frames: Vec<AnimationFrame>)
        ensures
            frames@ == first_occurrences(self.all_frames()),
    {
        let mut distinct: Vec<AnimationFrame> = Vec::new();
        let ghost seen: Seq<AnimationFrame> = Seq::empty();
        assert(distinct@ =~= first_occurrences(seen));
        let mut k: usize = 0;
        while k < Animation::ALL.len()
            invariant
                k <= 5,
                distinct@ == first_occurrences(seen),
                seen == self.frames_through(k as int),
            decreases 5 - k,
        {
            let animation = Animation::ALL[k];
            let ghost before = seen;
            let list = self.frames(animation);
            let mut j: usize = 0;
            while j < list.len()
                invariant
                    j <= list.len(),
                    distinct@ == first_occurrences(seen),
                    seen == before + list@.take(j as int),
                decreases list.len() - j,
            {
                let frame = list[j];
                proof {
                    assert((before + list@.take(j as int + 1)).drop_last() =~= seen);
                    assert((before + list@.take(j as int + 1)).last() == frame);
                    seen = before + list@.take(j as int + 1);
                }
                if !contains_frame(&distinct, frame) {
                    distinct.push(frame);
                }
                j = j + 1;
            }
            assert(list@.take(list.len() as int) =~= list@);
            k = k + 1;
        }
        assert(self.frames_through(0) =~= Seq::<AnimationFrame>::empty());
        assert(self.frames_through(1) =~= self.animation_frames(Animation::Idle));
        assert(self.frames_through(2) == self.frames_through(1) + self.animation_frames(Animation::Left));
        assert(self.frames_through(3) == self.frames_through(2) + self.animation_frames(Animation::Down));
        assert(self.frames_through(4) == self.frames_through(3) + self.animation_frames(Animation::Up));
        assert(self.frames_through(5) == self.frames_through(4) + self.animation_frames(Animation::Right));
        assert(self.frames_through(5) =~= self.all_frames());
        distinct
    }

    /// The frames of the first `k` animations of `Animation::ALL`, in order.
    pub open spec fn frames_through(&self, k: int) -> Seq<AnimationFrame>
        decreases k,
    {
        if k <= 0 {
            Seq::empty()
        } else {
            self.frames_through(k - 1) + self.animation_frames(animation_at(k - 1))
        }
    }
}

/// The `k`th animation of `Animation::ALL`.
pub open spec fn animation_at(k: int) -> Animation {
    if k == 0 {
        Animation::Idle
    } else if k == 1 {
        Animation::Left
    } else if k == 2 {
        Animation::Down
    } else if k == 3 {
        Animation::Up
    } else {
        Animation::Right
    }
}

/// The distinct frames hold no frame twice and hold exactly the frames of
/// the list they were taken from.
pub proof fn lemma_first_occurrences(s: Seq<AnimationFrame>)
    ensures
        first_occurrences(s).no_duplicates(),
        forall|f: AnimationFrame| #[trigger] first_occurrences(s).contains(f) <==> s.contains(f),
    decreases s.len(),
{
    if s.len() > 0 {
        let rest = s.drop_last();
        let kept = first_occurrences(rest);
        lemma_first_occurrences(rest);
        assert(s == rest.push(s.last()));
        assert forall|f: AnimationFrame| #[trigger] first_occurrences(s).contains(f) <==> s.contains(f) by {
            vstd::seq_lib::lemma_seq_contains_after_push(rest, s.last(), f);
            vstd::seq_lib::lemma_seq_contains_after_push(kept, s.last(), f);
        }
        if !kept.contains(s.last()) {
            assert forall|i: int, j: int|
                0 <= i < kept.push(s.last()).len() && 0 <= j < kept.push(s.last()).len() && i != j
                implies kept.push(s.last())[i] != kept.push(s.last())[j] by {
                if i == kept.len() {
                    assert(kept.contains(kept[j]));
                } else if j == kept.len() {
                    assert(kept.contains(kept[i]));
                }
            }
        }
    }
}

/// An animation's frames are those listed under its own atlas name, and no
/// two animations share a name, so no animation shows another's frames.
pub proof fn lemma_frames_listed_under_own_name(sheet: &Spritesheet, a: Animation, b: Animation)
    ensures
        sheet.animation_frames(a) == frames_under(sheet@.frames, animation_name(a)),
        a != b ==> animation_name(a) != animation_name(b),
{
    let (na, nb) = (animation_name(a), animation_name(b));
    if a != b {
        assert(na != nb) by {
            if na.len() == nb.len() {
                if na.len() == 4 {
                    assert(na[0] != nb[0] || na[1] != nb[1]);
                }
            }
        }
    }
}

/// The distinct frames are exactly the frames that some animation shows,
/// each once; so every frame that a tick of an animation shows is among
/// them.
pub proof fn lemma_distinct_frames_cover(sheet: &Spritesheet)
    ensures
        first_occurrences(sheet.all_frames()).no_duplicates(),
        forall|a: Animation, f: AnimationFrame| #[trigger]
            sheet.animation_frames(a).contains(f) ==> first_occurrences(
                sheet.all_frames(),
            ).contains(f),
        forall|f: AnimationFrame| #[trigger]
            first_occurrences(sheet.all_frames()).contains(f) ==> exists|a: Animation| #[trigger]
                sheet.animation_frames(a).contains(f),
        forall|a: Animation, tick: int|
            tick >= 0 && sheet.animation_frames(a).len() > 0 ==> first_occurrences(
                sheet.all_frames(),
            ).contains(
                #[trigger] sheet.animation_frames(a)[tick % sheet.animation_frames(a).len() as int],
            ),
{
    broadcast use vstd::seq_lib::lemma_seq_concat_contains_all_elements;

    let all = sheet.all_frames();
    lemma_first_occurrences(all);
    let idle = sheet.animation_frames(Animation::Idle);
    let left = sheet.animation_frames(Animation::Left);
    let down = sheet.animation_frames(Animation::Down);
    let up = sheet.animation_frames(Animation::Up);
    let right = sheet.animation_frames(Animation::Right);
    assert forall|a: Animation, f: AnimationFrame| #[trigger]
        sheet.animation_frames(a).contains(f) implies first_occurrences(all).contains(f) by {
        assert(all == idle + left + down + up + right);
        assert(all.contains(f));
    }
    assert forall|f: AnimationFrame| #[trigger]
        first_occurrences(all).contains(f) implies exists|a: Animation| #[trigger]
            sheet.animation_frames(a).contains(f) by {
        assert(all.contains(f));
        if idle.contains(f) {
            assert(sheet.animation_frames(Animation::Idle).contains(f));
        } else if left.contains(f) {
            assert(sheet.animation_frames(Animation::Left).contains(f));
        } else if down.contains(f) {
            assert(sheet.animation_frames(Animation::Down).contains(f));
        } else if up.contains(f) {
            assert(sheet.animation_frames(Animation::Up).contains(f));
        } else {
            assert(sheet.animation_frames(Animation::Right).contains(f));
        }
    }
    assert forall|a: Animation, tick: int|
        tick >= 0 && sheet.animation_frames(a).len() > 0 implies first_occurrences(all).contains(
            #[trigger] sheet.animation_frames(a)[tick % sheet.animation_frames(a).len() as int],
        ) by {
        let frames = sheet.animation_frames(a);
        let k = tick % frames.len() as int;
        assert(0 <= k < frames.len());
        assert(frames.contains(frames[k]));
    }
}

/// An animation loops: a tick and the tick one loop later show the same
/// frame.
pub proof fn lemma_animation_loops(sheet: &Spritesheet, animation: Animation, tick: int)
    requires
        tick >= 0,
        sheet.animation_frames(animation).len() > 0,
    ensures
        ({
            let n = sheet.animation_frames(animation).len() as int;
            (tick + n) % n == tick % n
        }),
{
    let n = sheet.animation_frames(animation).len() as int;
    vstd::arithmetic::div_mod::lemma_mod_add_multiples_vanish(tick, n);
}

fn contains_frame(frames: &Vec<AnimationFrame>, frame: AnimationFrame) -> (found: bool)
    ensures
        found == frames@.contains(frame),
{
    let mut i: usize = 0;
    while i < frames.len()
        invariant
            i <= frames.len(),
            forall|j: int| 0 <= j < i ==> frames@[j] != frame,
        decreases frames.len() - i,
    {
        if frames[i] == frame {
            return true;
        }
        i = i + 1;
    }
    false
}

/// The step at which decoding the PNG image failed.
#[derive(Clone, Copy, Debug, PartialEq, Eq, Structural)]
pub enum PngFailure {
    /// The header could not be read: the bytes do not look like a PNG.
    NotPng,
    /// The decoded image would not fit in memory.
    TooBig,
    /// The image data could not be decoded.
    Undecodable,
}

/// The first frame of a decoded PNG image.
pub struct DecodedImage {
    pub width: u32,
    pub height: u32,
    /// The PNG color type of the pixels (6 for RGBA).
    pub color_type: u8,
    /// The bits per sample (8 for one byte per channel).
    pub bit_depth: u8,
    /// The decoded pixels, row by row.
    pub pixels: Vec<u8>,
}

/// A decoded image, its pixels as a sequence.
pub struct DecodedImageView {
    pub width: u32,
    pub height: u32,
    pub color_type: u8,
    pub bit_depth: u8,
    pub pixels: Seq<u8>,
}

/// The result of decoding, its image as a view.
pub open spec fn decoded_view(decoded: Result<DecodedImage, PngFailure>) -> Result<
    DecodedImageView,
    PngFailure,
> {
    match decoded {
        Ok(image) => Ok(
            DecodedImageView {
                width: image.width,
                height: image.height,
                color_type: image.color_type,
                bit_depth: image.bit_depth,
                pixels: image.pixels@,
            },
        ),
        Err(failure) => Err(failure),
    }
}

/// What the png crate's decoder gives for `bytes`: the first frame's
/// size, color type, bit depth and pixels, or the step that failed.
pub uninterp spec fn png_first_frame(bytes: Seq<u8>) -> Result<DecodedImageView, PngFailure>;

/// Decodes the first frame of a PNG image with the png crate:
/// `Decoder::new` over the bytes, `read_info`, a buffer of
/// `output_buffer_size` bytes filled by `next_frame` and cut to the frame's
/// `buffer_size`. Trusted: the result is what the decoder gives for these
/// bytes, which depends on nothing else; and 8-bit RGBA pixels take four
/// bytes each, rows unpadded (`buffer_size` is the output line size, four
/// bytes per pixel here, times the height, and the first frame lies inside
/// the image, so the buffer holds that many bytes).
#[verifier::external_body]
fn decode_png(bytes: &[u8]) -> (decoded: Result<DecodedImage, PngFailure>)
    ensures
        decoded_view(decoded) == png_first_frame(bytes@),
        decoded matches Ok(image) ==> (image.color_type == RGBA_COLOR_TYPE && image.bit_depth == 8
            ==> image.pixels@.len() == image.width * image.height * 4),
{
    let decoder = png::Decoder::new(std::io::Cursor::new(bytes));
    let mut reader = decoder.read_info().map_err(|_| PngFailure::NotPng)?;
    let mut pixels = vec![0; reader.output_buffer_size().ok_or(PngFailure::TooBig)?];
    let info = reader.next_frame(&mut pixels).map_err(|_| PngFailure::Undecodable)?;
    pixels.truncate(info.buffer_size());
    Ok(DecodedImage { width: info.width, height: info.height, color_type: info.color_type as u8, bit_depth: info.bit_depth as u8, pixels })
}

/// The PNG color type of RGBA pixels.
pub const RGBA_COLOR_TYPE: u8 = 6;

/// Why the spritesheet could not be loaded.
#[derive(Clone, Copy, Debug, PartialEq, Eq, Structural)]
pub enum SpritesheetError {
    /// The image could not be decoded.
    Png(PngFailure),
    /// The image is not 8-bit RGBA.
    NotRgba8 { color_type: u8, bit_depth: u8 },
    /// The atlas could not be read.
    Atlas(AtlasError),
}

/// The spritesheet that a decoded image and an atlas give: the image must
/// be 8-bit RGBA and the atlas must read without error; the image is
/// checked first.
pub open spec fn image_spritesheet(image: DecodedImageView, xml: Seq<char>) -> Result<
    SpritesheetView,
    SpritesheetError,
> {
    if image.color_type != RGBA_COLOR_TYPE || image.bit_depth != 8 {
        Err(
            SpritesheetError::NotRgba8 { color_type: image.color_type, bit_depth: image.bit_depth },
        )
    } else {
        match atlas_frames(xml_events(xml)) {
            Err(e) => Err(SpritesheetError::Atlas(e)),
            Ok(frames) => Ok(SpritesheetView { width: image.width, rgba: image.pixels, frames }),
        }
    }
}

/// The spritesheet that a PNG image and an atlas give.
pub open spec fn loaded_spritesheet(png: Seq<u8>, xml: Seq<char>) -> Result<
    SpritesheetView,
    SpritesheetError,
> {
    match png_first_frame(png) {
        Err(failure) => Err(SpritesheetError::Png(failure)),
        Ok(image) => image_spritesheet(image, xml),
    }
}

/// A loading result, its spritesheet as a view.
pub open spec fn sheet_result_view(sheet: Result<Spritesheet, SpritesheetError>) -> Result<
    SpritesheetView,
    SpritesheetError,
> {
    match sheet {
        Ok(sheet) => Ok(sheet@),
        Err(e) => Err(e),
    }
}

impl Spritesheet {
    /// The spritesheet of a decoded image and the atlas XML.
    pub fn from_image(image: DecodedImage, xml: &str) -> (sheet: Result<Spritesheet, SpritesheetError>)
        ensures
            sheet_result_view(sheet) == image_spritesheet(
                DecodedImageView {
                    width: image.width,
                    height: image.height,
                    color_type: image.color_type,
                    bit_depth: image.bit_depth,
                    pixels: image.pixels@,
                },
                xml@,
            ),
    {
        if image.color_type != RGBA_COLOR_TYPE || image.bit_depth != 8 {
            return Err(
                SpritesheetError::NotRgba8 {
                    color_type: image.color_type,
                    bit_depth: image.bit_depth,
                },
            );
        }
        match parse_frames(xml) {
            Ok(animations) => Ok(Spritesheet::new(image.width, image.pixels, animations)),
            Err(e) => Err(SpritesheetError::Atlas(e)),
        }
    }

    /// Loads the spritesheet from its PNG image and its XML atlas.
    /// The image holds four bytes for each of its pixels, row by row.
    pub fn from_assets(png: &[u8], xml: &str) -> (sheet: Result<Spritesheet, SpritesheetError>)
        ensures
            sheet_result_view(sheet) == loaded_spritesheet(png@, xml@),
            sheet matches Ok(loaded) ==> loaded@.rgba.len() == loaded@.width * png_first_frame(
                png@,
            )->Ok_0.height * 4,
    {
        match decode_png(png) {
            Ok(image) => Spritesheet::from_image(image, xml),
            Err(failure) => Err(SpritesheetError::Png(failure)),
        }
    }
}

} // verus!
