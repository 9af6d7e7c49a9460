# vmdk

A verified reader and writer for the VMware VMDK (Virtual Machine Disk)
format, in its `monolithicSparse` variant: one file with a sparse-extent
header, an embedded text descriptor, the grain directory, the grain tables
and the grain data. Other variants are refused with an error that names
them.

## Layout

```
src/
  error.rs       the errors and what they say
  device.rs      block devices, as traits with contracts, and one in memory
  bytes.rs       little-endian numbers in byte sequences
  text.rs        lines, words, trimming and decimals
  header.rs      the 512-byte sparse extent header
  descriptor.rs  the embedded descriptor
  content_id.rs  the descriptor's content identifier
  extents.rs     sets of byte ranges
  inflate.rs     compressed grains
  image.rs       what an image says, as mathematics
  crash.rs       what a crash can leave of one
  reader.rs      the reader: open, read, write, flush
  walk.rs        reading whatever an image holds
app/             files, `fs_core` devices and the C ABI around the library
tests/           the library, run
```

## What is proved

- `reader::open`: what opening gives, error by error, on a device that
  serves every read it holds the bytes of. On one whose reads fail, opening
  gives that, or fails with an error of the device's own.
- `reader::state`: what a read gives for every image, error by error, with
  the same exception.
- `reader::write`: what a write and a flush do to the virtual disk of a
  healthy image, and what they keep on every outcome.
- `reader::effect`: what a write does to the bytes of any image, grain by
  grain and error by error, as long as the regions whose place the header
  states and the tables it comes to are protected.
- `reader::laws`, `reader::joins`, `reader::reopen`, `reader::twins`,
  `crash`: a read gives back what was written, and reads of adjoining ranges
  join; what was flushed survives reopening and a crash; a crash at any
  point of a write leaves, byte by byte, the old data or the new; both
  copies of the grain map stay alike; the content identifier changes once
  per session, and it and the `uncleanShutdown` mark are durable before the
  data they announce.
- `reader::calls`: what an open reader keeps, and when the
  `uncleanShutdown` mark is up, through any sequence of calls.
- `reader::damage`, `reader::order`, `reader::orderly`, `reader::bytewise`,
  `reader::sessions`: what of this holds of images that are not healthy,
  down to the single bytes that can be read.

An image is *healthy* when its tables and grains lie inside the file, clear
of the header, the descriptor and the directories, and no two of them share
a byte (`image::healthy`). It is *tidy* when its metadata is
protected, no entry of a directory names a place past the end, and the
tables and copies that are not refused are apart (`State::tidy`), and
*orderly* when, besides, every grain can be read and no two share a byte
(`State::orderly`). What the copies say does not matter to either.
