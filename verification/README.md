# consensus_sim

Single-decree Byzantine fault-tolerant consensus in three flavours (PBFT,
Tendermint, HotStuff), written as node state machines whose behaviour is
proved with Verus.

- `src/` is the verified library:
  - `quorum`: `f = (n - 1) / 3`, the quorum `2f + 1`, node numbering, and the
    quorum laws (the fault-free nodes form a quorum; two quorums of `3f + 1`
    nodes share a fault-free node);
  - `tally`: the latest vote of each sender in a phase, and the quorum check;
  - `pbft`, `tendermint`, `hotstuff`: the messages, each node's reaction to a
    message as a `Step` (messages to send, value decided), the cluster set-up,
    and per-step safety laws;
  - `pbft_run`, `tm_run`, `hotstuff_run`: a whole cluster run as the network
    carries it (FIFO channels, atomic broadcasts, any order in which the nodes
    read), and the consensus law for each protocol: with at least two nodes,
    every node that decides decides the proposed value, and a run can only
    come to rest once every node has decided. Every run comes to rest, within
    a bound on its length, and then has sent exactly `(n - 1) * (2n + 1)`
    messages (PBFT, Tendermint) or `7 * (n - 1)` (HotStuff). The Tendermint
    laws are proved by showing that a Tendermint run behaves as a PBFT run.
    A step of these runs reads a message and sends the reaction at once;
  - `pbft_split`, `tm_split`, `hs_split`: runs in which a node's read and
    its later hand-over are separate events, other nodes' events coming in
    between; the same consensus, termination and message-count laws are
    proved of them, by showing that each such run is, with the steps under
    way undone, a run of whole steps;
  - `network`: per-node tokio channels with a shared message counter.
    `send`, `broadcast` and `perform` return the receipts of their
    hand-overs, which only the wrapper of tokio's `send` can make (module
    `channel`): which channel's sending half got which item.
    `lemma_perform_receipts_deliver_as_post` shows that, once the items
    arrive, the channels are as `step::post`, which the run models use,
    says. `Network::new` holds each channel's receipt that its two halves
    belong together, and a clone `shares` the channels, lock and counter;
  - `step`: what a node's step sends and decides, how the network hands it
    to the channels, a node's run over an inbox, and the laws that a node
    which ignores some messages, or acts on a repeated one once, does the
    same over an inbox without them (instantiated per protocol);
  - `metrics`, `simulation`: the cost of a run, the order of the runs of a
    comparison, and the comparison table.
- `app/main.rs` runs every node as a tokio task that waits for messages and
  lets the library decide what to do with each, and prints the table.
- `tests/` exercises the library, including whole runs of each protocol over
  the network with a fixed delivery order.
