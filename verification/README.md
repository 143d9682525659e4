# riddle

An enchanted diary for a paper tablet. Write on the page with the pen. After a pause the diary
drinks your ink, and an answer writes itself onto the page in a flowing hand, then fades.

`src/` is the diary's mind, proved with Verus: it is told what the pen, the clock, the oracle's
letter box and the memory hold, and answers with what to do. It reads no clock and touches no
device.

| module | what it decides |
| --- | --- |
| `diary`, `step`, `commit` | what the diary is doing, and what it does next |
| `pen`, `stab`, `power` | what the pen, a held eraser and the power button bring about |
| `plan`, `reply` | how replies and remembered pages are laid out and inked, point by point |
| `bleed`, `noise` | how ink spreads over paper, pixel by pixel |
| `draw` | how the oracle's sketches are read and put on the page |
| `oracle`, `memory`, `args` | excuses, trial runs, what is remembered, flags |
| `font`, `sound`, `outline`, `table` | the hand, and which font files can be shown to the parser |
| `fb`, `surface`, `text`, `single` | the page, its pixels, small text tools, how numbers are ordered |

Each public function states in its contract what it gives back. The `pub proof fn`s beside them
state what holds of the diary as a whole: that no point of a reply is skipped, that today's page
always comes back, that only a fang held for three seconds erases the memory.

Single precision arithmetic is left to the caller: it comes in as functions, or as numbers with
what is read off them.

`app/` is the program round it: the loop, the devices' interfaces, and the arithmetic. `tests/`
runs the library on examples.
