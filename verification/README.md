# sirtea

Generates SRT subtitle files from video using local speech-to-text. Long videos are split
into segments that the speech model accepts in one call; the segments are split at natural
sentence boundaries, and their captions are stitched back together with correct timestamps.

- `src/` is the library: how words become cues, cues become lines, segments become one
  transcript, and captions become a subtitle file. Every function states what it returns,
  and Verus proves it. The answers of the standard library, lexopt and symphonia that it
  builds on are not proved but trusted, as the doc comments on their declarations say. All
  times are whole nanoseconds; close calls are made as 64-bit floating-point seconds make
  them.
- `app/` is the program around it: the command line, the configuration file, ffmpeg and
  ffprobe, the model download, and the speech model itself.
- `tests/` runs the library on concrete inputs.

| Module | Subject |
|--------|---------|
| `text`, `grammar` | characters, words, and where sentences end |
| `layout` | breaking a cue's text into two lines |
| `utterance`, `seconds` | timed words, and times as floating-point numbers hold them |
| `segmentation`, `cues`, `cue_laws` | cutting sentences into cues at the least cost |
| `split`, `segments`, `stitch` | splitting audio into segments and stitching their cues |
| `subtitle_formats` | SRT and VTT files |
| `pcm`, `ffmpeg`, `media` | audio samples, their extraction, and what a file holds |
| `queue`, `status`, `model`, `cli` | the order of videos, progress messages, the model file, the command line |

`segments::law_*`, `stitch::law_*`, `cue_laws` and the other functions named `law_*` state
what holds across functions: that no word is lost, that captions never overlap, that a cue
fits the subtitle envelope wherever it can, that an incomplete download is never used.
