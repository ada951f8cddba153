# scuttlecast

Reliable multicast transfer of files and streams: one sender, any number of
receivers, repairs by parity and by request.

The input is cut into blocks, the blocks into slices, and each slice carries
parity shards made with a Reed-Solomon code. Shards and control messages travel as
UDP datagrams. A receiver puts slices back together from any of their shards, asks
for what parity does not make good, and hands the blocks over in order.

## Layout

- `src/` is the library, verified with Verus. It does no I/O: it is told what
  arrived and what time it is, and says what to send.
  - `proto`, `wire`: shards and control messages as bytes, and back. `block_proto`
    is the protocol of whole blocks.
  - `shards`: what the shards of a transfer hold. `codec`: the erasure code.
    `buffers`: shared byte buffers.
  - `sender`: `slicer` cuts the input and keeps what may be asked for again,
    `group` knows what the receivers need, `sending` decides what leaves, `pacer`
    when the rate changes.
  - `receiver`: `session` deals with what arrives, `assembler` restores slices,
    `naks` asks for repairs, `reorderer` and `counter` keep track of blocks.
  - `transport` tells datagrams apart; `state`, `spelling` and `report` say how far
    a transfer is; `time` and `nonzero` are small helpers.
- `tests/` runs the library: unit by unit, and whole transfers over a network in
  memory.
- `app/` is the `scuttle` program: sockets, files, the clock, and everything that
  takes floating point.

## What is proved

What a receiver hands over is, byte for byte, what the sender took in, whatever
shards of the transfer arrive, in whatever order and however often:
`sender::slicer` shows that everything handed out belongs to the transfer,
`sender::sending` that it arrives as it was sent, and `receiver::session` that a
session that is fed with it hands over the bytes in order and is only over when it
handed over all of them. That takes the end of the transfer to be known before a
full last slice is handed over whose last block is a short one.

What holds over the whole life of a part, whatever happens to it, is stated over the
steps that it takes: `sender::slicer::history` for the emit floor,
`sender::group::history` for what the receivers need and ask for,
`receiver::session::history` for the bytes handed over, and next to the part itself for
blocks cut, counted, kept and put in order and for repairs asked for.

What comes from outside, the Reed-Solomon code, integer fields in `bincode`'s
encoding and the buffers of `bytes`, is trusted to do what the doc comments in
`codec`, `wire` and `buffers` say.
