pub mod text;
pub mod risk;
pub mod packet;
pub mod markdown;
pub mod scan;

pub use markdown::{escape_markdown_table_cell, render_markdown};
pub use packet::{
    check_artifact_dir, check_risk_review, create_packet, ArtifactRecord, CreatePacketOptions,
    EvidencePacket, PacketError, BOUNDARY_NOTE, PACKET_VERSION,
};
pub use risk::{risk_flags_for, should_scan_entry};
pub use scan::{relative_artifact_path, scan_artifacts, sha256_hex, ScannedFile};
