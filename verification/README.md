# mapdb

Named collections over a record store: sorted maps and sets kept as B-link trees, persistent
queues, single values, secondary indexes, and the catalog that gives all of them their names.
The library is written in Rust and verified with Verus.

A collection is a handle. It holds no reference to its store; every operation takes the store
as an argument, and its contract says what the operation answers and what it does to the
records. What belongs to a handle, and that nothing else changes, is part of each contract.

## Layout

    src/error.rs      the errors
    src/io.rs         byte output and input, packed integers
    src/text.rs       decimal numbers and text
    src/ser.rs        codecs and their laws
    src/store.rs      the store interface and a store on the heap
    src/lease.rs      which collections are open
    src/listener.rs   listeners of a map's changes
    src/btree/        nodes, trees, the map, bulk loading, views
    src/queue/        the queue of numbered entries and the queue of elements
    src/db/           the catalog, named objects, makers, secondary indexes
    tests/            what the library does on given values
    app/              locks, waiting threads, shared handles, bindings and files around the library

## What is proved

- A tree in a well-formed state is ordered and linked at every level, and holds exactly the
  entries that its model says; every operation keeps it so.
- An entry that was put is read back, a removed one is gone, and other collections in the same
  store are as they were.
- A listing is in key order, without gaps or repetitions, in either direction.
- An iterator goes on where the map changes under way: it never turns back, it gives what was
  to come and stayed, and what it gives was to come or is in the map.
- What a codec writes it reads back, and it reads no more than it wrote.
- A map that owns bindings keeps its indexes, counters and histograms in step with its entries
  through every change that they all admit. A change that one refuses, such as a derived key
  that a unique index has for another entry, is answered with that refusal: the entry stands,
  the index keeps the rows of all other entries, and bindings that admit the change follow it
  unless they can wait.
- No node of a map grows beyond the size that the map was made with.
- A queue hands its elements out in the order that its mode asks for.
- An object that was created opens again under its name with what it holds, and a rollback
  brings back names and records of the last commit.

The laws are proof functions whose names begin with `law_`.
