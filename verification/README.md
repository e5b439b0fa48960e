# aprs_stream

Decoding of APRS packet radio, from sliced AFSK bits to published frames, verified with
Verus.

- `src/` is the library, verified but for what it takes from outside: bit clocks and
  slicers (`afsk`), deframing, check sequences and bit recovery (`hdlc`), addresses and
  frames (`ax25`), text (`aprs`), duplicate suppression and routing (`pipeline`), channel
  planning, overlapping windows and channel blocks (`sdr`), the frame schema (`stream`)
  and the publishing service's rules (`streamd`). Functions named `law_*` state what holds
  across several functions.
  What the proofs take on trust is stated where it is used: CBOR reading by `ciborium`
  and JSON writing by `serde_json` (`stream::codec`), AX.25 payload parsing by
  `aprs_decode` (`streamd::frames`), and `String::push` and `char::from_u32` of the
  standard library (`text`, `aprs::text`).
- `tests/` runs the library on concrete values.
- `app/` holds the programs round it: floating-point signal processing, the dongle,
  sockets, configuration files and serialisation.

Signal levels and gains that are not integers pass through the library as the bit
patterns of single-precision numbers.
