pub mod account_setup;
pub mod additive_map;
pub mod assoc;
pub mod bigint;
pub mod bytesrepr;
pub mod cache;
pub mod cl_type;
pub mod cl_value;
pub mod host_abi;
pub mod key;
pub mod runtime;
pub mod sorted;
pub mod state;
pub mod stored_value;
pub mod string_map;
pub mod tracking_copy;
pub mod transform;
pub mod value_codec;
