# diolingo

Download a YouTube video and attach bilingual English + Chinese subtitles, for personal language
study; listen to it with an always-on-top subtitle bar.

`src/` is the library: what the program decides and computes, verified with Verus. `app/` is the
program around it: arguments, files, processes, sockets, HTTP, the GTK bar, and what is computed in
floating point (how long a shadowing pause lasts, playback speeds, how volumes are shown).

## The library

| Module | What it holds |
|--------|---------------|
| `text`, `text_lemmas` | text as sequences of characters: splitting, joining, white space, order |
| `number`, `float`, `finite` | decimal numbers as text, and what binary floating point makes of them |
| `json` | JSON documents, read by `serde_json`, as a tree |
| `captions` | `json3`, WebVTT and SRT documents; cleaning and normalising cues |
| `align` | pairing cues with their translations |
| `subs` | SRT and ASS documents |
| `play` | finding a video's folder and files, bilingual cues from the sidecars, the player |
| `overlay` | sentences, shadowing, what the bar shows and where it sits |
| `mpv` | commands for mpv, its replies and its events |
| `ytdlp` | caption tracks, retries, yt-dlp's command lines, the steps of a download |
| `qwen`, `key`, `translate` | the translation script: request, command, answer; the cache's keys; the steps of a translation |
| `ffmpeg`, `burn` | muxing and burning subtitles in |
| `session` | file names, and the steps that a video goes through |
| `command` | command lines whose paths the caller fills in |
| `normal`, `neat`, `roundtrip` | laws: what normalised cues obey, which texts a document keeps, what reading gives back of writing |

Contracts speak of text as `Seq<char>` and of every other type through its view. Proof functions
whose names begin with `law_` state what holds across functions.

What `serde_json`, `str::to_lowercase` and `String::push` do is taken from their documentation;
those functions carry their contracts in `json`, `mpv`, `play` and `text`.
