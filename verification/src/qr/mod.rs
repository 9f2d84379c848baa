pub mod codeword;
pub mod encoder;
pub mod gf;
pub mod micro_qr;
pub mod types;
