# audio-core

Audio processing core for dataset preparation: silence-based slicing,
sample-rate conversion and audio file handling.

- `src/` is the verified library (Verus). It holds the integer logic:
  - `slicer`: slicer configuration and its checks, the hop, window and hop
    counts derived from it, what the moving RMS window takes in before each
    level, the scan of hop levels for silent stretches, and the frame ranges
    of the slices. Levels are order keys (`u64`); the laws proved there say
    that slices are ordered, non-empty and cut at silent hops, and that only
    silence is dropped.
  - `hops`: first minimum of a range of levels, silence tags and the ranges
    between them.
  - `resampler`: the converter's rates and the sample layout around the
    conversion (splitting interleaved samples into channels, padded blocks,
    joining channels again), with the law that joining undoes splitting.
  - `audio_format`: formats recognised by file extension.
- `app/` is ordinary Rust around it: decoding and encoding files
  (symphonia, hound), floating-point processing (RMS levels, mono mix-down,
  normalisation, decibel conversion), FFT resampling (rubato), and the slicing
  workflow.
- `tests/` runs the library on concrete values.
