# stair_core

The sound engine of Stair One, a 16-pad synthesizer, split in two.

- `src/` is the verified library: the seeded mulberry32 generator, the knob
  identifiers, the patch vocabularies (waves, LFO shapes, filter types,
  arpeggio scales), the voice pool that decides which of the 40 voices a pad
  press takes and which voices a release reaches, the arpeggiator's event
  queue, the sample buffers of the Web Audio parts (delay line, 128-sample
  quantum delay, the oversampler's double-written ring, the FFT's bit-reversal
  permutation) and the render tool's command-line rules (options, pad
  numbers, take file names).
- `app/` is the `render` tool and everything that computes with floating
  point: oscillators, filters, compressor, effects, voices and the engine
  that mixes them, the metrics and images, and the C ABI used by the web and
  plugin builds. It calls the library for the decisions listed above.

`tests/` runs the library on concrete values.
