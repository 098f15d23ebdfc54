# System Monitor Widget, verified core

A desktop widget that shows CPU, memory, temperature, GPU, network and disk, lists
the busiest processes, and warns when a reading stays above its threshold.

`src/` is the core: everything that is decided or computed, written in
[Verus](https://github.com/verus-lang/verus) and proved against its contracts.

| Modules | What they hold |
|---|---|
| `num`, `rounding`, `arith`, `bignat`, `reading`, `figures` | binary64 readings: comparison, arithmetic, reading and writing |
| `single` | binary32 arithmetic, in which the screen is measured |
| `digits`, `text`, `utf16`, `format` | whole numbers, text, and the forms in which readings are shown |
| `settings` | display modes, thresholds, preferences, and how they are saved |
| `metrics`, `sampler`, `csv`, `counters`, `feed` | the shared state, and how it is filled from counters, processes and feeds |
| `kill` | which processes may be ended, and how |
| `guardian` | alerts, at most one for an episode and one a minute |
| `history`, `layout`, `words`, `ui` | charts, drawing operations, texts, and what answers to the mouse |
| `commands`, `window` | what the web page and the native window can ask for, and what is done |

The promises that span several functions stand as proof functions named `law_..`.

`app/` is the program around the core: it reads the sensors, draws with Direct2D,
keeps the settings file and talks to the window system. The native window runs on
Windows; the window with a web page needs the `tauri` crates and is built with
`--cfg page`.

`tests/` runs the core on concrete values.
