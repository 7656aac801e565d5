# ruka

A single-node, Kafka-like message broker: an append-only log split into
size-bounded segments, served over a small binary protocol.

- `src/` is the library, written and proved with Verus:
  - `protocol/`: frames (`[TotalLength][Magic][ApiKey][CorrelationId][Topic][Partition][Payload]`),
    the codec, typed requests and responses;
  - `storage/`: the record and index encodings, segments, partitions with
    rotation, file names, and the models (`log_model`, `partition_model`)
    whose laws tie appends, reads, fetches and reloads together;
    `contents` reads the records a segment or partition holds off its bytes
    and states those laws for every segment and partition that `create`,
    `open_or_create` and appends make;
  - `broker/`: the response each request gets from what its partition did;
  - `error`, `config`, and small helpers for byte and text encodings.
- `app/` is the broker program: command line, the TCP server (tokio), one
  task per partition, and the files on disk that mirror each segment.
- `tests/` exercises the library on concrete values.
