# qwen3_tts

The engine room of a Qwen3-TTS 1.7B voice-clone synthesiser, as a Verus library:
everything that is decided between a request and the audio, with contracts that
Verus proves. The tensor arithmetic itself runs on the GPU, outside the library.

- `src/` holds the library. `text`, `error`, `ieee` and `lang` are its ground;
  `audio`, `mel`, `resample`, `lowpass` and `postproc` deal with sound;
  `weights` and `schema` with weight files; `talker`, `code_predictor`,
  `decoder`, `encoder` and `speaker` with the parts of the model; `tokenizer`,
  `sampling`, `pipeline`, `stream`, `options` and `engine` with an utterance.
- `tests/` runs the library on concrete values.
- `app/` is ordinary Rust around the library: files, the GPU, the clock and
  floating-point arithmetic.

Floating-point numbers appear in the library as bit patterns: it compares and
sorts them, and leaves computing with them to its callers. Levels of 20 ms
windows, softmax weights and tensors are computed there and handed in.
