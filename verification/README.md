# media_parser

Inspection and clipping of media containers. The library under `src/` reads
MP4 and MP3 structures from bytes, plans reads of samples, builds MP4 files,
frames H.264 samples and judges HTTP replies; Verus proves each function
against its contract. `app/` holds what performs I/O: readers over files and
HTTP, the parser entry points and the commands.

- `src/boxes.rs`, `src/bytes.rs`, `src/helpers/`: boxes, tables and timing.
- `src/mp4_writer/`: movies and segments, with proofs that what is written
  reads back.
- `src/clip.rs`, `src/av_clip.rs`: clips.
- `src/format/`: ID3 tags, MP4 atoms, tracks, subtitles and thumbnails.
- `src/decoders/`: H.264 bitstreams, the cropping of parameter sets and the
  decoder.
- `src/stream.rs`, `src/stream_reader.rs`, `src/source.rs`: reading over HTTP.
- `src/envelope.rs`, `src/commands.rs`, `src/subtitle_command.rs`: requests and
  replies of the commands.
- `src/sessions.rs`: which sessions are kept between commands.
