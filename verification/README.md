# vlscii

The computing core of a true-color ANSI terminal video player, written in Rust and
proved with Verus, and the player around it.

`vlscii` plays video inside a terminal. `ffprobe` and `ffmpeg` do the decoding; raw
`rgb24` frames are mapped to colored terminal cells as an ASCII glyph ramp, Unicode
braille dots or half blocks, and subtitles are drawn into the band below.

## Layout

`src/` is the library. Every function in it is verified against its contract.

| Module | What it holds |
|--------|---------------|
| `screen` | terminal output as tokens, and a terminal that reads them |
| `mapper`, `ascii`, `braille`, `half_block` | a frame becomes colored cells |
| `layout` | the grid that keeps the video's aspect, and its place on the terminal |
| `band` | the subtitle band |
| `renderer` | a frame, its padding and its subtitles; the info screen |
| `srt` | SRT parsing: timestamps, markup, blocks |
| `subtitles` | timed lookup, and which embedded track is used |
| `decoder` | ffprobe's report, and frames put together from a stream |
| `term` | entering and leaving the alternate screen |
| `cli` | what the command line asks for |
| `binary64` | the order of double-precision numbers, by their bits |
| `text` | trimming, splitting, replacing, decimal numbers |

Functions named `law_…` state what holds of several functions together: that a terminal
shows every cell although colors are sent only where they change, that no stale subtitle
stays on the screen, that frames are the stream however reads cut it, and the like.

`app/` is the program: arguments, processes, signals, waiting, and floating-point
arithmetic. `tests/` runs the library.

The library trusts two functions of `std`, `String::push` and `char::from_u32`; their
contracts stand at the top of `src/text.rs`.

## Requirements

- `ffmpeg` and `ffprobe` on the `PATH`
- a terminal with 24-bit color
