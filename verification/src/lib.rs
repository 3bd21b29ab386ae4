//! Scanning of byte buffers for framed packets: a fixed header, a declared
//! length, and a trailing checksum (XOR of the body, or an additive sum of
//! configurable width and endianness).

pub mod checksum;
pub mod scanner;

pub use checksum::buf_to_uint;
pub use checksum::checksum_add;
pub use checksum::checksum_xor;
pub use checksum::has_valid_checksum;
pub use checksum::ChecksumType;
pub use checksum::Endian;
pub use scanner::find_valid_packets;
