# tailtalk

An AppleTalk protocol stack: addressing on EtherTalk and LocalTalk, DDP, RTMP,
ZIP, NBP, AEP, ATP, ADSP, ASP, PAP, an AFP file server and a StyleWriter driver.

* `src/` is the library: the protocols as state machines over plain values,
  verified with Verus. Nothing in it touches a socket, a file or a clock; times
  are milliseconds and dates are seconds that the caller hands in. Contracts are
  stated over views of the data; properties that span several functions are the
  proof functions whose names start with `law_`.
* `tests/` runs the library on concrete packets, names, volumes and pages.
* `app/` is the program around the library: serial ports, packet capture,
  tasks and channels, the file system, the desktop database, and the daemon
  connection.

| module | what it is about |
| --- | --- |
| `addr`, `link`, `wire`, `text`, `bytebuf` | addresses, data link packets, byte orders, text |
| `addressing`, `pending`, `random` | AARP and LLAP: acquiring and resolving addresses |
| `ethertalk`, `processor`, `remote` | Ethernet and LocalTalk frames, the serial adapter, a daemon's interfaces |
| `ddp`, `echo`, `nbp` | datagrams and sockets, echo, names |
| `route_table`, `rtmp`, `zip` | routes, routers and zones |
| `atp`, `asp`, `adsp`, `pap` | transactions, sessions, streams, printing |
| `afp` | the file server: paths, parameters, volumes, listings, the desktop database |
| `stylewriter` | raster encoding and printer sessions |
| `idmap`, `strmap`, `seqs` | tables and sequences |
