# Ferris Ferry

A Raft consensus library whose behaviour is stated in contracts and proved with Verus, and a
replicated key-value store on top of it.

The consensus algorithm is a synchronous state machine: it takes ticks, messages and proposals and
returns a list of actions. Nothing in `src/` touches a network, a disk or a clock.

## Layout

| Module | What it holds |
|---|---|
| `types`, `config` | messages, actions, what is stored, how a node is set up |
| `model` | the state of a node and what each input makes of it, as mathematics |
| `raft` | `RaftCore`, the node itself: elections, replication, snapshots, read barriers |
| `quorum` | the highest index that more than half of the servers hold |
| `driver` | `RaftDriver`: answers clients, orders effects, takes snapshots |
| `codec`, `frames` | binary forms, and the frames of a log |
| `storage`, `files` | storage in memory, and what goes into the files of a storage on disk |
| `peer_link` | when to connect to a peer, what to send, how long to wait |
| `statemachine`, `kv`, `kv_node` | the key-value store, and how its nodes are set up and answer |
| `text` | numbers and messages as text |
| `cluster` | a whole cluster: nodes, messages that may be lost, delayed or repeated, restarts |
| `laws`, `calls` | what every step of a node keeps, and what a series of calls leads to |
| `durability` | what stable storage holds, and what a restart or a crash finds there |
| `clients` | who waits at a node, and who is told what, over a run of its event loop |
| `election`, `agreement`, `replication` | one leader for a term; log matching; leader completeness; state machine safety |
| `reads` | linearizable reads |

`app/` is the program around the library: the event loop, TCP, files, HTTP and command line.

## What the safety laws leave out

The laws on whole clusters, in `election`, `replication` and `reads`, speak of nodes that restart
between two events. A crash in the middle of an event is left out of them. What such a crash finds
on stable storage is said in `durability`, effect by effect: the node as it was before the event,
that node with its new term and vote, or the node as it is after the event, which is there before
any message leaves. Two writes are not that tidy. A snapshot from a leader is stored before the log
is cleared, and the log is cleared before the entries after the snapshot are stored again; and so it
is with a snapshot that a node takes itself. A crash between those writes may find the new snapshot
with the log of before, or with none.

## The server

```
ferris_ferry --nodes 127.0.0.1:9001,127.0.0.1:9002,127.0.0.1:9003 \
  --id 1 --bind-addr 127.0.0.1:9001 --addr 0.0.0.0:3001 --directory /tmp/kv/node1
```

Keys are set with a POST to `/key`, read with a GET and removed with a DELETE on `/key/{name}`. A
node that does not lead sends the client on to the one that does.
