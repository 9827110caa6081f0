# message_history

Bounded lookups in an append-only message history: a file of rows, one JSON
record each, oldest first.

A lookup returns a batch: the row that was asked for and as many older rows as
two caps allow (128 rows, 64 KiB), newest first, with a cursor to the next older
batch. An oversized newest row is returned alone. The first lookup counts rows
from the start of the file. Later ones read back from the byte position in the
cursor.

`src/` is verified with Verus and does no I/O. A `HistoryLookup` says what to do
with the file next and is told what came of it; `lookup_batch` turns a finished
lookup into a batch, with a parser for the records as an argument.

- `rows`: how a file divides into rows
- `window`, `page`: which rows a batch holds
- `retain`, `forward`, `backward`: the two ways of finding them
- `cursor`, `batch`, `lookup`: the public face
- `laws`: what holds of every batch, and of batches that follow one another
- `agreement`: what a lookup finds in a file
- `newlines`: the search for newlines, through the `memchr` crate

`app/` performs the actions of a lookup on a real file.
