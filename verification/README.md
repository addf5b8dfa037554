# tiny_poe2smoother

Reduces visual and sound effects in Path of Exile 2 by patching the game's local
bundle files, after putting what it overwrites into a backup.

- `src/` is the library, verified with Verus: the bundle, index and archive formats,
  the scanners and the patches for the game's text files, the backup, the cache of
  the index, the search of the editors, and the decisions of opening the index, of
  applying and of restoring. Functions take what is on disk, and what the compression
  codec made of each chunk, as arguments.
- `app/` is ordinary Rust around it: the window, the command line, files, processes,
  and the calls into the codec.
- `tests/` runs the library on concrete values.

## What is proved

Each function states exactly what it returns, over the spec functions beside it.
What a regular expression finds, and whether it compiles, has a name there and is
left to the `regex` crate; a short simple pattern is stated to compile.

Public proof functions whose names begin with `law_` relate several of them, such as:

- what is packed into a bundle is unpacked again, as a whole and slice by slice;
- files that were replaced are read back from the new bundle, and all others stay;
- after a patch of the standalone archive its new index and bundle are found from the
  root, and all other paths lead to the same bytes as before;
- an index is given out only if the game's files stayed the same while it was opened;
- a restore undoes a patch, in the loose layout and in the standalone archive;
- nothing is written unless the game is closed, the index is unpatched, and the
  backup has been made, in the loose layout and for the standalone archive, which is
  never written to without one;
- emptying the blocks that hold sounds leaves none of them with content, and a second
  time changes nothing.

What the library takes from outside without proof is marked
`#[verifier::external_body]`, with a comment that says what is claimed: reading and
writing little-endian numbers (`byteorder`), regular expressions (`regex`), and a few
functions of the standard library on text.
