# pair

A high-fidelity, low-latency screen-and-system-audio link between two Macs on the
same Tailscale network.

Video is HEVC, cut into datagrams with Reed-Solomon style parity so that any one
or two losses in a group of ten are rebuilt byte for byte. Audio is uncompressed
32-bit float, each packet carrying a copy of the one before it so that an isolated
loss costs nothing.

## Layout

- `src/` is the library: everything the link decides or computes, written in Verus
  and proved against the contracts that stand with each function. Floats cross it
  as their bits.
- `tests/` runs the library on concrete values.
- `app/` is the program around it: the command line, sockets, files, playback, and
  what only macOS can do.

## The library

| Module | What it holds |
| --- | --- |
| `packet` | the datagram header, control datagrams, parameter sets |
| `gf`, `fec` | arithmetic in GF(256), and parity and repair on top of it |
| `reassembly`, `video` | frames to datagrams and back, in order, through loss |
| `packetize`, `jitter` | samples to packets and back, with redundancy and concealment |
| `congestion` | the video bitrate and repair strength to ask for |
| `send`, `receive` | what either side does about each datagram and each tick |
| `tailnet`, `preflight`, `settings` | where to send, whether the machine is ready, what was asked for |
| `media`, `pattern`, `wav` | frames, sizes, samples and recordings |
| `loopback`, `trips`, `selftest` | a faulty link, and the two round trips over it |
| `endian`, `chunks`, `samples` | bytes, blocks and samples |

Each module ends with what it guarantees as a whole, in proof functions whose
names start with `law_`: for example that a repaired group equals what was sent
(`fec::law_recovery_is_exact`), that frames are released in order
(`video::law_frames_are_released_in_order`), and that audio is played bit for bit
as captured (`jitter::law_audio_round_trips`).
