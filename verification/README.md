# telecodex

The logic of a Telegram bot that fronts a coding agent, written in Verus and
proved against its contracts.

- `src/render.rs`: Markdown replies rendered as Telegram HTML, and long
  replies split into messages of bounded length.
- `src/auth.rs`: the device-code login flow's messages and decisions, and
  the one-minute refusal of login starts after the endpoint's rate limit.
- `src/transcribe.rs`: where the Handy Parakeet model is looked for, when a
  model directory is complete, and what becomes of a transcript.
- `src/startup.rs`: the restart-delay setting.
- `src/text.rs`, `src/escape.rs`: character-level helpers and HTML escaping.
- `src/html_tags.rs`: the renderer's tags, and counting them in rendered text.
- `app/`: the program around the library: environment, files, ffmpeg, the
  speech model and the async runtime.
