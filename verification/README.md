# dag_consensus

The decisions of a round-based DAG consensus protocol, as a library whose behaviour is stated in
contracts and proved with Verus.

* `src/` is the library. It makes no calls to the network, the disk or the clock: whatever comes from
  there is an argument.
  * `keys`, `collections`: ordered keys, and sets and maps that keep them sorted.
  * `crypto`, `committee`, `error`: digests, keys and signatures; members and thresholds; what a
    message can be refused for.
  * `messages`: headers, votes and certificates, and the rules that they must keep.
  * `aggregators`: votes become a certificate, certificates become the parents of a proposal.
  * `primary`: what is done with each message, step by step. `voting`: what holds of every run of it.
    `handover`: what one primary hands to its proposer is what the others accept.
  * `proposer`: which round is proposed when, and with which header. `proposals`: what holds of every
    run of it.
  * `dag`, `traversal`, `ordering`: the local DAG, the walks through it, and the order of commits.
    `reachability`: what the walks meet.
  * `consensus`: the fast path, the slow path and the election of leaders. `safety`: what holds of
    every run of them.
  * `text`, `render`: the DAG and its messages as text.
* `app/` holds the asynchronous tasks around the library: channels, timers, storage, the network and
  the encoding of messages.
* `tests/` runs the library on concrete values.

Hashing and signatures come from `ed25519-dalek`; `src/crypto.rs` says what is relied on.
