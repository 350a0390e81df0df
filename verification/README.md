# sp2

Reading Neo Geo sprite data (`.sp2` banks), verified with Verus.

- `src/color.rs`: Neo Geo colour words and their conversion to and from opaque 32-bit colours.
- `src/palette.rs`: palettes (an index word and fifteen colour words) decoded from little-endian bytes.
- `src/framedef.rs`: frame definitions (size, column masks, tile numbers) and their drawn cells.
- `src/frame_bank.rs`: the frame-definition table of a sprite bank, one layout per draw type.
- `app/main.rs`: reads a bank from disk and prints its frame definitions.
