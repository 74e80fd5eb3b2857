# firmion

Verified pieces of the Firmion firmware linker, written in Verus.

- `esp_checksum`: the `std::esp_checksum` extension, the XOR checksum
  (seed `0xEF`) of the segment payloads of an ESP image, with its exact errors
  (a section that holds more than the segments its header declares is refused).
- `lma`: load addresses of object-file sections from the ELF program headers.
- `order`: the init priority of a section name and the stable sorts behind the
  `SORT_BY_ALIGNMENT` and `SORT_BY_INIT_PRIORITY` pattern operators.
- `sections`: the section table of a parsed object file, keyed and ordered by name.
- `objfile`: resolution of `obj` declarations to the ordered sections that are
  packed into the output: file and section patterns, exclusions, caching of
  parsed files, and the LMA contiguity check, with the diagnostics for each failure.
  Sections of formats without load segments load at their own address.
- `glob`, `objparse`: the calls into `flexiglob` and `object`.
- `text`: decimal and hexadecimal rendering for diagnostics.

`app/` runs resolution against the file system (listing files with
`flexiglob`'s `run_fs`, reading them with `std::fs`) and registers the
extension with Firmion's registry.
