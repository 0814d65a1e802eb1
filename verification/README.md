# reclutch

The event queues and the display bookkeeping of the Reclutch UI foundation,
written in Verus with their contracts proved.

## Layout

- `src/` — the verified library.
  - `model.rs`: the abstract event queue (events and one read position per
    listener) and its laws: cleanup keeps every listener's pending events, an
    emitted event reaches every listener, pulling clears only one's own
    events, removing a listener leaves the others alone, and once no listener
    is left no event stays buffered; every operation keeps a queue clean (no
    event that every listener has received stays buffered).
  - `intern.rs`, `event_intern.rs`, `widget.rs`: the queues, proved to follow
    the model; `slots.rs` wraps the `slotmap` crate that identifies listeners.
  - `chans.rs`, `schans.rs`: queues whose subscribers are woken, or sent
    copies of the events, through channels.
  - `traits.rs`, `thirdparty.rs`, `cascade.rs`: the emitter/listener traits,
    their impls on black holes, vectors and slices of queues (broadcasting),
    pointers and channels, and the bookkeeping of event cascades.
  - `command_list.rs`, `linked.rs`: command groups kept by depth in
    `linked_hash_map` layers; what a presentation draws, which groups it
    drops, and the laws of maintenance.
  - `display.rs`, `save_stack.rs`, `gpu.rs`, `error.rs`: resources, handles
    and the resource check of a draw command, the repaint bookkeeping of a
    command group, a renderer's save stack, and the GPU render plan of a
    command group (balanced saves and restores).
- `tests/` — tests of the library.
- `app/` — what surrounds it: shared and thread-safe queue handles, channel
  workers, asynchronous streams, the floating-point geometry of the display,
  the widget traits and verb graphs.
