//! Teeworlds protocol pieces: the variable-length integer packing, the
//! snapshot headers, the server-list tracker's data model and the
//! decisions of the Wireshark plugin, each with its contract proved.

pub mod packer;
pub mod format;
pub mod addr;
pub mod protocol;
pub mod json;
pub mod tracker_json;
pub mod dissector;
