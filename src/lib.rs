pub mod api;
pub mod fips202;
pub mod ntt;
pub mod packing;
pub mod params;
pub mod poly;
pub mod polyvec;
pub mod randombytes;
pub mod reduce;
pub mod rounding;
pub mod sign;
pub mod symmetric;
pub mod vault;

pub use api::{open, verify, Keypair, KeypairError, SignError};
pub use params::{PUBLICKEYBYTES, SECRETKEYBYTES, SIGNBYTES};
