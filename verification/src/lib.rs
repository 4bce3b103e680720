pub mod safe_hash;
pub mod sip_hash_state;
pub mod adaptive_hashing;
pub mod key;
pub mod model;
pub mod resize_policy;
pub mod table;
pub mod entry;
pub mod internal_entry;
pub mod robin_hood;
pub mod adaptive_map;
pub mod laws;
