# videoscribe

A local video-to-text tool: FFmpeg pulls the audio out of a video, whisper.cpp
turns it into text, and the result is written as SRT subtitles and a plain-text
transcript next to the video.

`src/` is the verified library (Verus):

- `text` – decimal formatting, white-space trimming, searching and splitting.
- `paths` – file names, stems, extensions, parents, joins of Unix paths.
- `timestamp` – `HH:MM:SS,mmm` and `HH:MM:SS.mmm` timestamps.
- `transcript` – the 30-second chunks with one second of overlap, and the
  numbering and formatting of recognised segments.
- `audio` – supported video files, FFmpeg arguments and outcomes, the duration
  FFmpeg reports, WAV sample scaling.
- `models` – where the model lives (`com.videoscribe.app` in the local data
  directory) or may be found, which candidate is taken, model reports, download
  bookkeeping.
- `plan` – checks and paths of a transcription request.

`app/` is the Tauri application around it: commands, processes, files, the
network, whisper.cpp and everything in floating point.
