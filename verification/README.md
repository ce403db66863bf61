# repak

The records of Unreal Engine pak archives, in Verus. Headers and footers are specified byte for
byte, and the functions that read and write them are proved to keep to that. Of files it is
proved that reading gives back what was written, compressed and encrypted or not, on the terms that
the laws in `roundtrip` and `file` name. Files that Oodle compressed are left out, since its
compressor and decompressor are not part of the library; so are compressed files in versions below
3, which do not store where the blocks are. A short file that is encrypted but not compressed comes
back, in versions below 10, with the zeros that filled its last cipher block.

- `bytes`: little-endian numbers, and a reader over a byte string
- `version`, `error`: versions, compression methods, errors
- `entry`: the header of a file; `encoded`: its packed form in the index
- `footer`: the end of an archive
- `cipher`, `variant`: AES-256 over whole blocks, and how much of a file a game encrypts
- `codec`: the compression methods; `blocks`: how compressed blocks make up a file
- `data`: a file on its way into an archive; `file`: writing and reading one in place
- `roundtrip`: what an archive gives back of what was put into it
- `stream`: what the callbacks of a stream are asked and answer; `oodle`: where that library is
  looked for

The compression, cipher and hash crates are called through small functions marked
`external_body`. These are not proved: their contracts say what is taken from the crates, and from
the standard library, on trust. A decompressor for Oodle, and one for Zstandard blocks without a
frame, are handed in by the caller.

`app/` holds the C interface and everything that talks to streams and shared libraries.
