# llm-multimodal

What a multimodal language model's front end decides before any pixel is
encoded, verified with Verus: which frames of a video are decoded, and what the
placeholders of images and videos in a prompt are replaced by.

- `src/float` is IEEE 754 arithmetic on bit patterns. Which frame is picked
  depends on the last bit of a quotient, so every operation is proved against
  the exact ratio rounded to the nearest number, ties to even.
- `src/video_sampling` holds the sampling strategies; `laws` states what holds of
  the frames they pick.
- `src/registry` holds one spec per model family (Qwen3-VL, GLM-5.3-Flash,
  MiniMax-M3); `laws` states what holds of the replacements.
- `src/json` is the boundary to `serde_json`, the only code that is believed
  rather than proved, along with what a tokenizer is said to do.
- `app` gives the library native floats and reads JSON.
