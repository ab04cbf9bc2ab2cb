//! Liveness tracking and ping challenges for DHT nodes, and the codec of the
//! encrypted `CryptoData` packet used on established sessions.

pub mod big_endian;
pub mod crypto;
pub mod crypto_data;
pub mod dht_node;
pub mod ping_hash;
