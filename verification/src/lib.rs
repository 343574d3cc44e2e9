//! Verified core of the RDR2 Xbox-to-PC story-save converter.
//!
//! The modules hold the binary formats and the checks that guard a
//! conversion: word reading (`bytes`), the CHKS checksum (`checksum`), the
//! AES-256-ECB and SHA-256 bindings (`crypto`), UTF-16 text fields (`text`),
//! the RSAV payload validator (`rsav`), the PC save header and file
//! validator (`pc`), the key configuration (`keys`), the ZIP member scan and
//! slot assembly (`slots`, `order`), and the conversion itself (`convert`).

pub mod bytes;
pub mod checksum;
pub mod convert;
pub mod crypto;
pub mod error;
pub mod keys;
pub mod order;
pub mod pc;
pub mod rsav;
pub mod slots;
pub mod text;

pub use bytes::{read_u32_be, read_u32_le, swap_each_u32};
pub use checksum::{digest_step, jooat, jooat_update};
pub use convert::{manifest_entry, prepare_conversion, verify_xbox_key, ManifestEntry, PreparedSave};
pub use crypto::{aes_ecb, sha256_hex};
pub use error::ConvertError;
pub use keys::{parse_key, KeyConfig};
pub use pc::{build_pc_header, encode_utf16le_field, pc_header_checksum, validate_pc_file};
pub use rsav::{marker_offsets, validate_rsav, RsavValidation};
pub use slots::{
    pc_name, safe_zip_parts, ArchiveScan, SaveFile, SlotMember, XboxSlot, ZipEntryInfo,
};
pub use text::decode_utf16le_field;
