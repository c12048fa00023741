# teltonika_avl_protocol

Encoding and decoding of Teltonika AVL protocol frames (Codec 8, `0x08`), written in Verus.
Every encoder states the exact bytes it writes, every decoder states what it reads back
(or which error it reports), and for Codec 8 packets, records, their elements, UDP
acknowledgements and AVL packet headers the round trips between them are proved. A UDP
request does not round-trip: `decode` expects neither the length field nor the unused
byte that `encode` writes in front of the packet id and the header.

Layout:

- `src/lib.rs` – the CRC-16 of the data field (`crc16`, specified by `spec_crc16`), its
  laws (`lemma_crc16_xor`, `lemma_crc16_zeros`, `lemma_crc16_residue`) and the `AvlCodec`
  trait for packet codecs.
- `src/error.rs` – the codec errors and their messages (`AvlError::message`).
- `src/codec8.rs` – Codec 8: priorities, coordinates, GPS elements, the four kinds of IO
  elements, AVL data records and packets; the wire layout as spec functions
  (`record_bytes`, `packet_bytes`, `record_decoding`, `packet_decoding`) and the laws
  relating them (`lemma_record_roundtrip`, `lemma_packet_roundtrip`, ...).
- `src/avl.rs` – UDP framing (`AvlUdpRequest`, `AvlUdpAckResponse`), the AVL packet header,
  and IO elements generic over the width of their ids (`AvlIoId`, implemented for `u8` and
  `u16`).
- `src/bytes.rs` – big-endian layouts and the buffer primitives the codecs are built from.
- `src/stack.rs` – what the library assumes of the fixed-capacity `heapless::Vec`.
- `app/` – what is not verified: conversions between coordinates and float degrees, and an
  error type with `Display` (through `AvlError::message`) and `std::error::Error`.

Coordinates are kept as the integer the wire carries, in units of 1e-7 degree.
