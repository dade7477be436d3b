# zillanote

Record a meeting, get minutes: the rules behind that, written in Verus and proved.

`src/` is the library. Every public function in it carries a `requires`/`ensures`
contract that Verus checks, and the properties that span several functions stand as public proof
functions whose names start with `law_`. The few calls into other crates (lettre,
pulldown-cmark, chrono, crc32fast, and some of `std`) sit behind small trusted wrappers whose doc
comments say what is assumed of them.

| Module | What it decides |
|---|---|
| `calls` | when a call starts and ends, and when a recording stops after it |
| `chunker` | where a recording is cut for the speech recognizer |
| `asr`, `asr_text` | what the recognizer is sent, which failures are tried again, how its text is cleaned and cut |
| `pipeline` | which chunk answers are kept and whether a recording ends up with a transcript |
| `transcript` | the `[mm:ss] Speaker: text` form of a transcript |
| `speakers`, `diarize`, `turns`, `voices` | the counting behind who spoke when |
| `minutes`, `templates` | what the language model is asked and in which order, how long transcripts are split, how answers are cleaned |
| `email` | the mail server, subject and message for the minutes, and what a failure means |
| `store` | meeting states and folder names, settings and where their secrets go |
| `model`, `server`, `download` | the speech model's files, the local server, resumable downloads and their checksums |
| `text` | sequences of characters: trimming, splitting, searching, decimal numbers |

`tests/` runs the library on concrete values. `app/` is the program around it: files,
processes, HTTP, audio and the floating-point signal work, calling the library for every
decision.
