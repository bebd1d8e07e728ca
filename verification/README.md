# hyprhue

Screen-to-light syncing for Philips Hue entertainment areas on Wayland, as a Verus
library with a thin program around it.

- `src/processor.rs`: the colour of the left and right quarter of a captured frame
  (weighted mean of squares, integer square root), with laws on uniform, black and
  untouched regions.
- `src/stream.rs`: the entertainment streaming packet, its sequence numbering, and the
  stream's pre-shared key (hexadecimal client key, through the `hex` crate).
- `src/hue.rs`: bridge configuration, API addresses, discovery, the registration
  state machine, stable sorting of entertainment groups, stream activation replies.
- `src/setup.rs`, `src/decimal.rs`: first-run choices and `str::parse`-style numbers.
- `src/recovery.rs`: what to do after a failed run.
- `src/capturer.rs`: the state of a screencopy frame request.
- `src/text.rs`: characters, substring search, string order.
- `app/`: the program: HTTP, DTLS, Wayland, files, logging and the sync loop.
