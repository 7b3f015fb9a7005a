# moproxy

A transparent TCP to SOCKSv5/HTTP proxy. Clients are redirected to it by the
firewall or speak SOCKSv5; it finds out where they want to go, tries the best of
its proxy servers and copies bytes in both directions. It tests its servers from
time to time, gives each a score, and lets a policy say which servers a
connection may use.

The decisions are a library whose behaviour is proved with
[Verus](https://github.com/verus-lang/verus); sockets, timers and files are
ordinary Rust around it.

## Layout

- `src/`: the library.
  - `net`, `number`, `text`, `order`, `lines`, `time`: addresses, numbers and
    strings, and how they are read and written.
  - `policy`: rules, the file they are read from, and the servers that a
    connection may use. `route` is the smaller set of rules by capability alone.
  - `server`: the list of proxy servers.
  - `client`: accepting clients, finding their destinations, and which servers
    are tried when. `tls` finds the name of a host in a TLS greeting.
  - `proxy`: proxy servers, their scores, the SOCKSv5 and HTTP handshakes, and
    copying. `socks5` and `http` are the handshakes without a password.
  - `monitor`: the order of servers, their tests, throughput and records.
  - `web`: the status pages.
  - `udp`: UDP packets of a virtual network device.
  - `linux`: redirected connections, the service manager, device names.
- `tests/`: tests of the library.
- `app/`: the program.

What the library needs of other crates (parsing HTTP heads and INI files, prefix
tables, packet headers, tables as text, patterns, lower case, random numbers) it
calls through small functions marked `external_body`. Their doc comments say
what is believed of the calls.
