# hyperlicked

Committee-bound HotStuff consensus in Verus: executable Rust whose behaviour is
stated in contracts and proved.

A node commits a block when a child of it is certified (the two-chain rule).
Certificates carry the votes of validators with strictly more than two thirds
of the voting power; votes are BLS signatures that name the epoch, the
committee, the genesis, the view, the block and the application state.

## Layout

- `src/types`: contexts, votes, certificates, blocks, committees, messages and
  settings, with the messages that are signed and hashed.
- `src/consensus`: the rules.
  - `safety`: when a validator may vote.
  - `committee`: verification of votes and certificates, and forming them.
  - `aggregator`, `timeout`, `view_change`: collection of votes, timeouts and
    view changes.
  - `pacemaker`: views and their timeouts.
  - `equivocation`, `evidence`: double votes, their evidence and its canonical
    form.
  - `store`: the cache of blocks and the bounded journal of unfinalized ones.
  - `persistence`, `recovery`: what has to be durable, and what a restart
    accepts.
  - `runner`: a networked validator as a state machine; it takes messages and
    returns what to send. Where the application or the durable store decides, the
    contracts name the call that was made and its answer (`runner/asks`).
  - `engine`: a validator in one process, and observers.
  - `agreement`: no conflicting blocks are finalized in consecutive views.
- `src/node`: replay of durable blocks, catching up from a peer, and the loop of
  the single-process server.
- `src/config`: configuration from environment variables.
- `src/crypto`, `src/clock`, `src/text`: calls into `sha2`, `blst`, `hex` and the
  standard library's clocks. What is claimed of them is stated there and not
  proved.
- `app`: the command line and the asynchronous loop around the library.
- `tests`: the library on concrete values.

## Limits

Agreement is proved of blocks that are certified together with a child in
consecutive views, by validators that vote in rising views, and for certified
views that rise from parent to child. A node commits without asking whether the
two views are consecutive, so commits across a gap of views are not covered.

Blocks are kept in memory, or behind the trait `PersistentStore`. The length of a
serialized block is handed in, because the library does not serialize its own
types.
