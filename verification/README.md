# mipt_rust

A collection of small Rust libraries whose behaviour is specified with
`requires`/`ensures` contracts and proved with Verus.

- `src/` is the verified library:
  - a gzip/DEFLATE decoder: `bit_reader`, `huffman_coding`, `gzip`,
    `deflate`, `tracking_writer` and `ripgzip` (stored and dynamic-Huffman
    blocks, with the output written before a failure kept);
  - data structures: `min_queue`, `pstack` (persistent stack), `flatmap`,
    `lru_cache`, `trie`, `mpsc` (channel state);
  - algorithms and text: `conway`, `combinations`, `prefix`, `comm`,
    `line_adjustment`, `itertools` adaptors, and the check names and shell
    lines of the submission tool (`rover`).
- `tests/` runs the library on concrete values.
- `app/` holds what stays outside the proofs: the command-line front ends,
  file and process I/O, the directory walker, the thread pool, and the
  `Iterator` and channel handles built on the library's types.
