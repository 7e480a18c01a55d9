# rawloader

Reading camera raw files: TIFF directory trees and their metadata, the Fuji
RAF container and the Fuji X-Trans compressed raw format. The library is
written in Verus. Its functions carry contracts that Verus proves, except
two small wrappers in `src/tiff.rs` around `std::str::from_utf8` and
`str::trim`, whose contracts are taken from the standard library's
documentation and trusted.

- `src/basics.rs`: byte-order aware reads (0 past the end of a buffer) and
  an MSB-first bit reader.
- `src/tiff.rs`: the TIFF tags, directory entries and directory trees
  (sub-directories, maker notes, the RAF header directory); the tree read
  from a file, and what `find_entry` gives on it, are stated over the
  file's bytes.
- `src/exif.rs`: EXIF values gathered from a directory tree.
- `src/fuji_compressed.rs`: the X-Trans decompressor, stated as a function
  from the compressed bytes to the image.
- `src/raf.rs`: the layout and format of a RAF file's raw data, the search
  for its compressed stream, the detection of empty image borders and the
  45-degree rotation of SuperCCD images.
- `app/lib.rs`: floating-point readings (entry values as `f32`, the RAF
  white balance), which stay outside the verified library.
- `tests/`: tests of the library on concrete files and streams.
