//! Verified building blocks: a DEFLATE/gzip decoder (bit reader, Huffman
//! codes, block and member headers, history-tracking writer) and a set of
//! small data structures and text utilities.

pub mod bit_reader;
pub mod huffman_coding;
pub mod gzip;
pub mod deflate;
pub mod tracking_writer;
pub mod ripgzip;
pub mod min_queue;
pub mod conway;
pub mod pstack;
pub mod flatmap;
pub mod text;
pub mod lru_cache;
pub mod prefix;
pub mod rover;
pub mod combinations;
pub mod itertools;
pub mod mpsc;
pub mod line_adjustment;
pub mod trie;
pub mod trie_key;
pub mod comm;
