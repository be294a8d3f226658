# mlx-whisper-rs

Whisper speech recognition for Apple Silicon. The library is written in
[Verus](https://github.com/verus-lang/verus): what it decides is stated in contracts, and the
contracts are proved.

## Layout

- `src/` is the verified library, on plain values.
  - `wav`, `npy`, `npz`, `archive`, `vocabulary`: the file formats.
  - `audio`: padding, reflection, the frames of a spectrogram, the mel filters.
  - `languages`, `special`, `pieces`, `bpe`, `encoding`, `roundtrip`, `symbols`, `words`,
    `tokenizer`: text to tokens and back, special tokens, words.
  - `whisper`, `load_models`: the dimensions of a model, the windows of its attention, and the
    weights that a checkpoint must hold.
  - `decoding`: which token may come next, when to stop, and what the result is.
  - `transcribe`: windows, segments, the text before, retries and languages.
  - `text`, `numbers`, `bytes`, `table`, `unicode`: what the others are made of.
- `tests/` runs the library on concrete values.
- `app/` is the model itself, on MLX arrays, and the files and programs around it. It needs macOS
  on Apple Silicon.

## Conventions

- Floating point stays in `app/`. The library takes its outcome: samples and filters by their bits,
  logits as integers that order as they do, thresholds as whether they were passed.
- Times are counted in mel frames of 10 ms; the limit on the first timestamp is in microseconds.
- Public proof functions are the laws of the library: what holds of several functions together.
- What is taken from other crates and from std without proof is marked
  `#[verifier::external_body]`, `assume_specification` or `uninterp`, with a comment that says what
  is claimed of it. The crates are `base64`, `flate2` and `zip`.

## Assets

`app/` reads the vocabularies `multilingual.tiktoken` and `gpt2.tiktoken` and the mel filters
`mel_filters_80.npy` and `mel_filters_128.npy` from an assets directory, and audio files through
`ffmpeg`.
