# dragon_curve

An animated dragon curve that can be recorded as a GIF.

- `src/` is the library, verified with Verus: folding the curve, rasterising it, reducing the
  picture to palette indices, framing the GIF stream, and the rules of the animation.
- `app/` is the program: the window, the camera and the file. Its arithmetic is floating point.
- `tests/` runs the library on concrete values.

The `gif` crate does the compression. What the library takes for granted of it is written down in
`src/gif_stream.rs`.
