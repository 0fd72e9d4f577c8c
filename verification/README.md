# lyrebird

The logic of a desktop app for learning English from YouTube podcasts,
written in Verus and proved against its contracts:

- captions: WebVTT/SRT parsing, inline tags, rolling-repeat removal (`subtitle`);
- the reading view: timed word stream, filler and stutter removal, sentence
  cutting, filler phrases, paragraph breaks and layout (`translate`, `structure`);
- translation: request blocks, numbered prompts, reading the model's JSON
  answer, the run's tally, and sharing each caption's translation among the
  sentences that overlap it without overlap or gap (`translation`, `json`,
  `translate`);
- downloads and tools: yt-dlp and ffmpeg argument lists, progress lines,
  multi-pass byte tracking, sizes, errors, downloaded files (`ingest`,
  `download`, `export`);
- channels, imports, speech recognition, dictionaries, vocabulary reviews,
  the model client's settings and answers, media URLs (`channel`, `import`,
  `asr`, `dict`, `mdx`, `words`, `llm`, `media`);
- text helpers over character sequences and exact decimals (`text`, `decimal`).

Times are whole milliseconds and percentages thousandths of a percent.

`src/` is the verified library, `tests/` its tests, and `app/` the
unverified shell around it: database, processes, HTTP, the media server and
the command handlers.
