# cch23

The request logic of a small web service, written in Verus and proved against its
contracts.

- `src/packets.rs`: packet ids in a URL path, folded with XOR and cubed.
- `src/reindeer.rs`: the total strength of a herd and the reindeer contest.
- `src/text.rs`: decimal text of integers.
- `src/elves.rs`: counting `elf`, `elf on a shelf` and bare shelves in a text.
- `src/cookie.rs`: cookie headers decoded from base64 and UTF-8.
- `src/pantry.rs`: ingredients by name, and baking cookies from a pantry.
- `app/`: the actix-web handlers and the shuttle entry point around the library,
  with the floating-point endpoints and the network calls.
- `tests/`: tests of the library.
