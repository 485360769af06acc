# pocket_femtanyl

A desktop pet for Wayland compositors: a small overlay in the corner of the
screen plays a sprite animation, and key bindings posted through the
compositor's event socket make it move.

- `src/` is the verified library:
  - `animation.rs`: the animations and the state that picks the active one
    from the keys held, with its laws;
  - `input.rs`: the key event lines of the compositor's event socket;
  - `text.rs`: character-level helpers (decimal parsing, digit trimming);
  - `atlas.rs`: the XML atlas of frame rectangles, read with quick-xml;
  - `spritesheet.rs`: the spritesheet image (decoded with png) and its
    frames;
  - `pixels.rs`: the drop shadow and chromatic aberration applied to each
    frame, packed as ARGB words;
  - `layer.rs`: the overlay's configured size and the copy of rendered rows
    into the compositor's buffer.
- `tests/` exercises the library.
- `app/` is the program: the Wayland event loop, the socket reader thread,
  cairo surfaces and the floating-point camera wiggle. It embeds the
  spritesheet image and atlas at build time, so `assets/femt.png` and
  `assets/femt.xml` have to be in place before it is built.
