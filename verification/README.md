# roead

Readers and writers for file formats of first-party Nintendo EAD/EPD titles,
written in Verus with their behaviour stated as contracts and proved.

- `yaz0`: Yaz0 compression and decompression. The decoder is a byte-level
  state machine (`spec_decode`). The encoder's output is stated byte for
  byte (`spec_yaz0_stream`, over the matches that `spec_chunks` picks) and
  is proved to decode back to its input; the compression level is accepted
  and has no effect on the output. `compress_if` compresses exactly when the path's
  extension starts with `s` and is not `sarc`, stated for every path whose
  extension std reads the same way on every platform
  (`spec_known_extension`).
- `sarc`: the SARC archive reader (`Sarc`) and writer (`SarcWriter`). The
  writer's output is stated as the sequence of writes it makes
  (`spec_write_ops`), and `sarc_layout_reads_back` proves that the reader
  gives back the files written.
- `aamp`: the CRC32 name hash of parameter archives, the name table that
  guesses structure names from their parents and from numbered formats, the
  parameter types, the binary reader (`ParameterIO::from_binary`), whose
  result is stated by `spec_aamp_read` over the bytes and which ends in an
  error on lists that nest without end, readers that find
  lists, objects and parameters in place (`aamp::reader`), and the writer
  (`ParameterIO::to_binary`), whose output is stated byte for byte by
  `aamp_bytes`: the record layout, the order in which parameter data is
  queued, and the sharing of equal data and equal strings.
  `collect_queues_each_parameter_once` proves that the data order takes
  every parameter exactly once, and `written_archive_reads_back` that
  reading a written archive gives back its version, data type and lists.
- `byml`: BYML documents, versions 2 to 7. The reader (`Byml::from_binary`)
  is stated by `spec_byml_read` and decodes table strings as UTF-8
  (lossily where they are not); it is total: offsets that loop back into
  the containers that hold them end in an error, as does nesting deeper
  than the data is long; the writer (`Byml::to_binary`, `Byml::write`) by
  `doc_bytes`, with sorted string tables; `written_reads_back` proves that
  reading a written document gives it back.
- `yaml`: the YAML tag helpers.

Floating-point values (in BYML nodes and AAMP parameters) are held as their
bits. There is no YAML text form of BYML documents or parameter archives
(`to_text` / `from_text`): it rests on a C++ YAML library and on float
formatting. The built-in table of known parameter names is not included:
`NameTable` starts empty and learns names as they are added.

- `types`: `FixedSafeString`, a string with fixed-size storage.
- `util`: byte-order reading and writing, alignment, and the trusted wrappers
  around `num_integer` and `std::str::from_utf8`.

`app/` holds what Verus does not see: an error type with messages for
`std::error::Error`, a path-based `compress_if`, and readers that load a
parameter archive or a BYML document from any `std::io::Read`.
