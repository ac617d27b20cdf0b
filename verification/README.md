# erofs

A reader for EROFS, a compressed read-only filesystem, written in Rust and verified with Verus.

* `src/` is the library. Every function states what it returns or changes, and Verus proves it.
  * `bytes`, `alloc_helper`, `errnos`: little-endian fields, fallible vectors, errors.
  * `superblock`, `inode`, `xattrs`, `map`: what the other modules know of an image.
  * `dir`: directory blocks and their entries.
  * `compression`, `compression::lz4`: how an image is compressed, and the LZ4 decoder.
  * `zmap`: where the extents of a compressed file stand, from full and from compact indexes;
    `zmap::extents` is about indexes whose entries agree with one another.
  * `data`: devices and buffers; `data::raw_iters` decodes extents and hands out the bytes of
    files and areas block by block.
  * `operations`: lookups of paths and attributes.
  * `mount`: block devices, mounting, inodes and directories as a virtual filesystem sees them.
* `tests/` runs the library on concrete images.
* `app/` is what a kernel adds: locks, disks, logging and registration.

Public proof functions whose names start with `law_` state what holds of several functions
together: what was encoded is decoded, what was packed is read back, chunks follow one another
without a gap, every place of an extent of a consistent index leads to the same extent, numbers of
inodes stay apart.

A request for memory may be refused at any time. Functions that need memory then answer `ENOMEM`.
Their contracts say how far a function has to come before that can happen. What they do with memory
at hand is stated exactly, and what they do behind a request stands in functions that make none.

What is taken on trust:

* `core::str::from_utf8` tells valid UTF-8 from other bytes.
* `Arc::strong_count` counts the handle that it is asked about. How many others there are is up to
  their holders: it is asked of `known_handle`, and `known_inode` decides on the count.
* The traits that users implement keep their contracts: `BlockDevice`, `Backend`, `MemoryBackend`,
  `MapIter`, `Inode`, `InodeCollection`, `FileSystem` and `ImageFileSystem`. They take a device for
  one that answers the same request in the same way every time. A function that calls such a trait
  says what holds whatever the answer is. Where it makes something of the answer, that part is a
  function of its own that takes the answer: `found_nid`, `Walk::step`, `take_infixes`,
  `take_inode`, `finish_search`, `finish_listing`, `take_block`, `read_answered`,
  `decode_delivered`, `take_compact_entry`.
