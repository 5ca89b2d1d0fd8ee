# riddle

Tom Riddle's diary: write into it, and it writes back. The page drinks the ink,
the handwriting goes to a vision model as a picture, and the reply appears
stroke by stroke in an animated hand.

- `src/` is the library, verified with Verus: the ink and its picture, the
  thinning and tracing of the reply, its wrapping, the conversation with the
  spirit, and the drawing of the diary on the screen.
- `app/` is the program around it: the window, the network, the resident
  process, files and the environment, and whatever is measured in floating
  point.
- `tests/` runs the library on examples.

## Running it

Put `RIDDLE_OPENAI_KEY`, and optionally `RIDDLE_OPENAI_BASE` and
`RIDDLE_OPENAI_MODEL`, into `oracle.env` or into the environment; what the
environment sets wins. Without a key the diary talks to a resident `pi` process.
Left-click and drag to write, right-click and drag to erase; Escape or closing
the window quits.
`riddle --oracle-test picture.png` asks the spirit once and prints the reply.

The reply is written with the fonts `fonts/DancingScript.ttf` and, for
characters that it lacks, `fonts/LXGWWenKai-Regular.ttf`.
