# betmasters

A distributed Mandelbrot renderer. A coordinator cuts the picture into
blocks of rows, hands them to workers connected over WebSocket, re-queues
blocks whose worker is too slow or leaves, and merges the answers into the
picture, which is written out as a PNG once every block is in.

Layout:

- `src/` is the verified library (Verus):
  - `coordinator.rs`: the coordinator's bookkeeping as a state machine over
    a mathematical view, with its invariant and the laws it keeps;
  - `tiles.rs`, `hello.rs`: the tile-based and the greeting-only designs
    that came first;
  - `worker.rs`: the coordinator's WebSocket address and the row-major
    layout of a computed block;
  - `logger.rs`, `text.rs`, `protocol.rs`: log lines, text utilities and
    the messages between coordinator and workers.
- `app/` is the program around it: servers, clients, the clock, the
  workers' channels (the coordinator says what to send to whom and is told
  whether it went out), the floating-point escape-time arithmetic and
  colouring, and the PNG output.
- `tests/` exercises the library through its public interface.
