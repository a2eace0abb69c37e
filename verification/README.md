# quash

QUIC transport for SSH, with a session layer whose decisions are proved with
Verus. A session carries the SSH byte stream over QUIC and outlives any single
connection: after a network handover the client reconnects, both ends resume
the streams from the offsets the peer last applied, and sshd never notices.

## Layout

- `src/` is the library. It does no I/O and is verified as a whole.
  - `wire`, `proto`: the frames on a stream, and that they are read back.
  - `session`, `stream`: the two directions of a session's byte stream, and that
    resuming neither loses nor repeats a byte.
  - `link`: what each end says on a link, and when a link is over.
  - `client`: the SSH bootstrap of the fingerprint, and the reconnect loop.
  - `server`: the table of sessions, and when a session is reaped.
  - `cert`, `tls`, `hexdigits`, `text`: certificates, fingerprints, and their
    spelling.
  - `payload`: what is assumed of `bytes::Bytes`.
- `app/` is the program around it: arguments, sockets, timers, processes, files.
- `tests/` run the library with the crates that it calls.

The library calls `bytes`, `getrandom`, `hex`, `rcgen`, `rustls`,
`rustls-pemfile` and `sha2`. Each such call stands behind a small function marked
`#[verifier::external_body]`, or an `assume_specification`, whose doc comment
says what is assumed of it.

## Usage

```
quash server --listen 0.0.0.0:4433 --proxy-to 127.0.0.1:22
```

```
Host example.com
    ProxyCommand quash client --remote %h:4433 --ssh-target %r@%h
```
