# Dockerwall

Dockerwall lets containers open connections to the domains that their network allows, and to
nothing else.

A network is prepared with a list of domain patterns. Firewall rules then send every question
for a name to a local DNS proxy, let packets through that go to an address in the network's
ipset or belong to a connection that was accepted before, and drop all others. The proxy passes
questions on, and puts the addresses in the answers into the ipsets that allow the domain.

```bash
sudo dockerwall daemon &
sudo dockerwall prepare-network secure-net "*.example.com"
docker run --rm --network secure-net curlimages/curl:latest -sS http://example.com
```

`prepare-network --runtime podman` does the same for rootless Podman with pasta; there the
questions for names that go to the proxy, and the answers to them, pass the rules too. To prepare
a network a second time leaves its rules as they stand.

## Layout

- `src/` is the library: the rules, the parsers, the memory of the daemon and the steps of a
  preparation, verified with [Verus](https://github.com/verus-lang/verus). What each function
  does stands in its contract; what holds of several together stands in public proof functions
  beside them. Start with `policy.rs` (which packets leave a network), `daemon.rs` (which
  addresses enter a set) and `prepare.rs` (in which order things are done).
- `app/` is the program around it: the command line, sockets, files and processes.
- `tests/` runs the library on concrete values.

Two things are taken on trust: that `String::push` appends a character, and that
`hickory-proto` reads the same message out of the same bytes.
