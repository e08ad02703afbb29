# monad-sonar

Reads the Monad validator peer set without running a node. The library in
`src/` holds the crawler's logic, verified with Verus; `app/` is the program
around it (command line, HTTP and JSON, files, the monad-bft discovery router).

- `abi`: ABI words of `eth_call` replies (hex text cut into 64-byte words, a
  `u64` in the low 16 digits of each), base-16 parsing with the rules of
  `u64::from_str_radix`, and calldata encoding.
- `hexcodec`: hex text to bytes through the `hex` crate.
- `rpc`: the staking-precompile reads: requests for a JSON-RPC transport and
  the decoding of their replies (epoch, block number, paginated consensus
  set, validator secp keys).
- `peers`: the union of discovered name records, one per peer key, the
  freshest kept, listed in key order.
- `validators`: the newest epoch of a validator snapshot and node-id key bytes.
- `bootstrap`: which configured bootstrap peers the router starts from.
- `addr`: the advertised address (explicit, else echoed) and IPv4 text.
- `network`: networks and their chain ids.
