# nanorts

A small real-time strategy game for up to four factions, alone against computer players or
over the local network in lockstep. The rules, the pathfinder, the fog, the computer
players' choices, the wire format, the lockstep, the menus and what is drawn of them are a
verified Verus library; the arithmetic in single precision, the window, the sockets and the
loudspeaker are ordinary Rust around it.

- `src/` is the library. A position or a clock is kept there by its bit pattern (`num`), so
  that the library can compare such numbers exactly; sums and products of them are computed
  by whoever drives the match and handed in.
- `app/` is the program: it drives a match (`game`), draws it (`draw`, `paint`), runs the
  screens in front of it (`front`), the sockets (`net`), the synthesiser (`audio`) and the
  matches without a window (`headless`).
- `tests/` runs the library, whole matches among it.

Every function of the library states what it returns or changes. Laws that span functions
are public proof functions in the module they belong to.
