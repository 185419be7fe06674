# logix

Digital circuits and their simulation, verified with Verus.

- `src/circuit.rs`, `src/component.rs`: circuits as trees of sub-circuits, and the
  builder of the event-driven component model.
- `src/components/`: gates, clocks and constants that react to events, and composed
  components that update their parts in dependency order.
- `src/serialize/`: reading and writing components as JSON values, with the law that
  what is written reads back.
- `src/sim/`: data words, the primitive programs, flattening of nested circuits into
  one list of primitives, and the passes of the simulator.
- `src/lang/`: declarations of the circuit language and how a circuit is built from them.
- `src/gui/`: the board a circuit is drawn on, wire directions, and names for new boards.
- `app/`: the command line: JSON files, board names in a folder, and simulations on a thread.
