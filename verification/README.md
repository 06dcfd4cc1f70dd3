# tinygif

A tiny GIF decoder for embedded systems, verified with Verus.

- `src/` is the library. `header`, `segment` and `blocks` read a file, `bitstream` and `lzw`
  decode the colour indices of an image, `placement` and `frame` lay them out on the screen, `gif`
  walks through the frames. `coding` and `laws` hold the laws that tie these parts together.
- `tests/` runs the library on files.
- `app/` is a program around it: a heap of fixed size, a logger, and the traits of
  embedded-graphics for frames.
