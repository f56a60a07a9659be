# novel_tools

Tools for reading Japanese web novels: download a chapter from
ncode.syosetu.com, rename characters and places through a JSON rule file,
translate line by line, and combine several versions of a chapter into one
HTML page.

`src/` is the library, verified with Verus:

- `text` — trimming, splitting, joining and decimal numerals over characters;
- `replace` — `str::replace` semantics and replacement plans;
- `json` — JSON values of a rule file and the dictionaries read from them;
- `replacements` — rule checking and the renaming rules as plans of steps;
- `renderer` — chapter lines, line counts and the two HTML pages;
- `ncode` — chapter addresses and chapter text;
- `translator` — output-file plan, skip pattern and per-line decisions.

`app/` is the command-line program around it: arguments, files, HTTP,
the translation model and speech.
