# ttyseq

Core library of ttySeq, a terminal-driven audio/MIDI/CV sequencer for live
performance, with the hardware validation tools built on it.

- `src/` — the library, verified with Verus:
  - `time` — time signatures, musical lengths and their length in ticks;
  - `text` — whitespace trimming, unsigned decimal numbers, substring search;
  - `ssd1322` — the Fates OLED framebuffer and the bus programs that set the
    panel up and push frames to it;
  - `playback` — routing ring-buffer samples to the output channels, feeding
    the ring buffer, and the rules an audio file must meet to be played;
  - `cli` — the options of the audio interface validation run and the choice
    of its output device.
- `tests/` — tests of the library on concrete values.
- `app/` — the `ttyseq` binary: audio output (cpal), files (hound), SPI and
  GPIO (spidev, gpiod, rppal), the embedded-graphics drawing target, and the
  floating-point tempo grid.
