# opus_core

The parts of an Opus encoder that decide, and the packets that come of it, with contracts
that Verus proves.

The library holds

- packets: reading them, joining and splitting them (the repacketizer), padding, and the
  extensions in the padding (`packet`, `repacketizer`, `packing`, `padding`, `extension_*`);
- the arithmetic of signals: filters, fades, energies, the stereo width (`arith`, `dsp`), and
  numbers of 24 significant bits (`rounding`);
- rates: what a bitrate comes to, what redundancy takes of it (`rates`, `dred`);
- the encoder: its settings (`encoder`), the plan of a packet (`plan`, `bare`), and what is
  decided before, between and after the coders that code a frame (`frame`, `speech`, `music`,
  `finish`, `several`, `stages`).

The coders themselves, for speech, for music, for redundancy, and the analysis of the signal,
are not part of it. The library tells them what to do and goes on from what they report; see
`coders` for what it keeps of them.

Modules whose names end in `_law` state what holds of all packets: that what is written reads
back, that padding can be undone, that parts of a packet fit, that what is planned can be
announced. `extension_steps`, `extension_order` and `extension_errors` do so of extensions:
what each step of a reader finds, the order in which frames are read, and when writing is
refused. Other modules state such laws beside the functions that they are about.

`app/` is ordinary Rust: it runs the coders in the order that `stages` gives, and holds what
computes in floating point. `tests/` runs the library on concrete values.
