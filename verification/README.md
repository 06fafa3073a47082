# phantun

Rule management and connection decisions for a tunnel that carries UDP over fake TCP.

The library holds what the tunnel decides and computes, with contracts that Verus proves. It
touches nothing outside itself: where it needs a file read or a program run it hands out a
`Request`, and it goes on when it is handed the `Outcome`.

- `src/text.rs`, `src/number.rs`: searching and splitting text, reading and writing numerals.
- `src/command.rs`: requests, outcomes, and the commands of `nft`.
- `src/fwmark.rs`: netfilter marks as the user writes them.
- `src/rule.rs`, `src/listing.rs`: the rules of a tunnel, and how they are found in a listing.
- `src/interface.rs`: finding the physical interface.
- `src/guard.rs`, `src/setup.rs`, `src/removal.rs`: setting rules up and removing them.
- `src/endpoint.rs`, `src/handshake.rs`, `src/dial.rs`, `src/monitor.rs`, `src/clock.rs`: the
  decisions of the client about addresses, packets, connecting and closing.
- `src/laws.rs`: what holds of every setup and removal, whatever the system answers.
- `src/ruleset.rs`: what setups and removals make of the rules in the kernel.

`app/` is the client program around the library. It performs the requests, owns the sockets and
the clock, and uses the `fake_tcp` crate for the connections themselves.
