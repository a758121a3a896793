# Blackhole

A DNS sinkhole whose decisions are verified with Verus.

`src/` is the library. It holds the configuration, the policy tables and how they change, the
decision on each query, admission and abuse budgets, the cache, the checks on resolver responses,
the DNS and DHCP wire formats, the listeners' state machine, the capture of DNS traffic, the query
log and the control plane's commands. Every function states what it returns or changes; the laws
that relate several functions stand at the end of their modules as public proof functions.

Nothing in the library reads a clock, a file or a socket. Times, file contents and the outcome of
each exchange are arguments, and each step says what to do next.

`app/` is the other half: files, sockets, threads, the firewall program, TOML and JSON.

`tests/` runs the library on concrete values.

## Trusted items

- `String::push`, given a contract in `text.rs`.
- `String::from_utf8`, wrapped in `text.rs`.
- `sha2::Sha256::digest`, wrapped in `country.rs`.
- `regex::Regex`, its builder and `is_match`, declared and wrapped in `regex_rules.rs`.
- `<str as Debug>::fmt`, wrapped in `text.rs`.
- `RuleBackend` and `OwnershipStore` in `linux_capture.rs` are for users to implement. Their
  contracts say only what an implementation itself declares that a call may come to.
