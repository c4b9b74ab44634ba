pub mod bits;
pub mod bstree;
pub mod errors;
pub mod huffman_compress;
pub mod huffman_laws;
