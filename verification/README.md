# wal_writer

A write-ahead log: length-prefixed, checksummed records in a directory of numbered
segment files, appended by one writer and iterated back by readers.

```text
Frame := [ len: u32 LE ][ payload: len bytes ][ crc: u32 LE ]
crc    = crc32_ieee( len_le_bytes ++ payload )
```

`src/` is the library, verified with Verus. It holds the format and every decision
and touches no file: `WalWriter` names one command at a time (create, write, flush,
sync), `WalReader` asks for bytes and files, and both are told how each request went.
`app/` performs the requests on the file system.

| module      | what it holds                                                       |
|-------------|---------------------------------------------------------------------|
| `crc`       | CRC-32 (IEEE), and which alterations it is sure to show             |
| `format`    | frames, their checksum, and what bytes say about a frame            |
| `segment`   | segment names and the scan of a directory                           |
| `error`     | errors and their words                                              |
| `reader`    | `WalReader`, `Strings`                                              |
| `writer`    | `WalWriter`                                                         |
| `replay`    | what a log says as a whole, and laws about cuts and damage          |
| `iteration` | a reader yields what the log said as of open, whatever it is fed     |
| `course`    | the commands of each operation, first to last                       |
| `store`     | a model of the files: what is visible, what survives a crash        |
| `text`      | numbers as text                                                     |
| `utf8`      | records as text                                                     |

`crc32fast` computes the checksum; of it, of `slice::sort_unstable` and of
`String::from_utf8` the library states what they do without proof.
