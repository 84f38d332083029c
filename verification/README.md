# termframe

Viewport frames of a terminal area, and minimal row-level patches
between two frames, for applications running over low-bandwidth
remote terminals: render the content into a `Frame`, keep it, and when
the content changes compute `Frame::diff` and write the resulting
`FramePatch` instead of the whole screen.

The library under `src/` is verified with Verus:

- `style`: cell styles and SGR sequences applied to them;
- `text`: grapheme segmentation and display width (unicode crates);
- `cell`, `frame`: cells, frames, their checks against an area and a
  skin;
- `patch`: the patch between two frames, its application to a frame,
  and the cells it writes;
- `line`: a row of a frame as runs of same-style graphemes;
- `glyphs`: checks of the conditions under which a patch reproduces
  its target frame;
- `ansi`: text holding SGR sequences parsed into styled graphemes;
- `builder`: a fixed-size terminal screen emulator building a frame
  from the bytes written to it;
- `laws`: what patches, builders, styles and row rewrites guarantee.

`app/` holds what Verus doesn't see: crossterm styles and commands
(writing a patch on a terminal), a `std::io::Write` front for the
builder, and the serializable forms of frames and patches.
