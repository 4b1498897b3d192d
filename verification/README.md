# xenwooting

Analog keyboards played as a microtonal instrument. A layout file gives each key of one or
two boards a note, a MIDI channel and a colour; the pitch of a key is
`(channel - 1) * edo + note + pitch_offset`, in steps of a division of the octave.

`src/` is the library. All of it is verified with Verus:

- `text`, `csv`, `sorted`, `natural`, `table`, `mask`, `byte_order`: texts, tables of text,
  orders, small maps and sets, and the bytes of numbers;
- `config`, `bindings`, `layouts`, `wtn`, `rgb`, `highlight`: what the files say;
- `hid`, `hidmap`, `board`, `devices`: keys, where they are, and which keyboard plays what;
- `poll`: from the keyboards' reports to presses and releases;
- `gate`, `control`, `modes`, `guide`, `player`: what each key does;
- `pitch`, `notes`, `tracking`, `midi`: what sounds;
- `paint`, `rgb_worker`: what is lit;
- `capture`, `dump`, `live`, `lag`: what is recorded, published and reported.

Two things are believed and not proved, each said where it stands: what `String::push` does,
and that the keyboard SDK's name of a key depends on the key's code alone. The verifier's own
library does the same for the standard collections and the standard hasher.

`app/` is the daemon round the library: files, threads, the Analog and RGB SDKs, ALSA, the
MTS-ESP library, and everything that is computed with fractions. The library never sees a
fraction: levels, speeds and thresholds come to it as numbers that grow with them.
The order in which the machine keeps the bytes of a number is handed to it too.
