pub mod bits;
pub mod bits_laws;
pub mod bitvector;
pub mod collect;
pub mod collect_laws;
pub mod compare;
pub mod compare_laws;
pub mod consts;
pub mod crawl_laws;
pub mod dpf;
pub mod dpf_laws;
pub mod emb_cnt;
pub mod field;
pub mod group;
pub mod group_laws;
pub mod hash;
pub mod merkle;
pub mod merkle_laws;
pub mod prg;
pub mod prg_laws;
pub mod primes;
pub mod random;
pub mod sketch;
pub mod sketch_laws;

pub use bits::{
    bits_to_bitstring, bits_to_string, check_hashes, string_to_bits, take, u32_to_bits,
    xor_in_place, xor_three_vecs, xor_vec,
};
pub use collect::is_server_zero_in_session;
pub use group::{Group, Share};
