# MiniMint e-cash benchmark

Simulates a federation of mints in one process and measures how long it takes until e-cash
transactions are accepted, and until the tokens are received.

- `src/` is the benchmark's logic, verified with Verus: the federation and its thresholds, the
  virtual network with a fixed latency, the members' exchange of proposals for consensus outcomes,
  how consensus is driven, the coins, the client, and the evaluation of the log.
- `app/` is the program around it: channels, timers, databases and the mint itself.
- `tests/` runs the library, with the consensus algorithm and the key generation linked.

```
benchmark <num-peers> <offline-peers> <latency-ms> <coins-per-tx> <tx-per-sec> <num-tx>
```

The output is one line of comma-separated values, in seconds: mean, standard deviation and maximum
of the time until a transaction is accepted, and the same of the time until its tokens are received.
