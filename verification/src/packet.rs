//! The evidence packet, the options it is created from, and what can go wrong.
use vstd::prelude::*;
use vstd::string::*;
use crate::text::{blank, is_blank, is_white_space, join, join_strings, views};

verus! {

/// The note that every packet carries about what it does not establish.
pub const BOUNDARY_NOTE: &'static str = "This packet records supplied artifacts and declared boundaries. It does not prove that the declared claim is true. It does not verify truth, and it does not certify safety, compliance, or readiness.";

/// The version written into every packet.
pub const PACKET_VERSION: &'static str = "0.1";

/// What a packet is created from.
#[derive(Debug, Clone)]
pub struct CreatePacketOptions {
    pub artifact_dir: String,
    pub declared_claim: String,
    pub supported_scope: String,
    pub limitations: Vec<String>,
    pub allow_risky: bool,
    pub risk_review_note: Option<String>,
}

/// One supplied artifact: where it is, how large it is, its SHA-256 and its
/// risk flags.
#[derive(Debug, Clone)]
pub struct ArtifactRecord {
    pub path: String,
    pub size_bytes: u64,
    pub sha256: String,
    pub risk_flags: Vec<String>,
}

/// The packet: the declared claim and its boundary, with the artifact record.
#[derive(Debug, Clone)]
pub struct EvidencePacket {
    pub packet_version: String,
    pub created_unix_seconds: u64,
    pub declared_claim: String,
    pub supported_scope: String,
    pub limitations: Vec<String>,
    pub risk_review_note: Option<String>,
    pub boundary_note: String,
    pub artifacts: Vec<ArtifactRecord>,
}

pub struct ArtifactRecordView {
    pub path: Seq<char>,
    pub size_bytes: u64,
    pub sha256: Seq<char>,
    pub risk_flags: Seq<Seq<char>>,
}

pub struct EvidencePacketView {
    pub packet_version: Seq<char>,
    pub created_unix_seconds: u64,
    pub declared_claim: Seq<char>,
    pub supported_scope: Seq<char>,
    pub limitations: Seq<Seq<char>>,
    pub risk_review_note: Option<Seq<char>>,
    pub boundary_note: Seq<char>,
    pub artifacts: Seq<ArtifactRecordView>,
}

/// The view of an optional string.
pub open spec fn opt_view(o: Option<String>) -> Option<Seq<char>> {
    match o {
        Some(s) => Some(s@),
        None => None,
    }
}

impl View for ArtifactRecord {
    type V = ArtifactRecordView;

    open spec fn view(&self) -> ArtifactRecordView {
        ArtifactRecordView {
            path: self.path@,
            size_bytes: self.size_bytes,
            sha256: self.sha256@,
            risk_flags: views(self.risk_flags@),
        }
    }
}

/// The views of a list of artifact records.
pub open spec fn record_views(v: Seq<ArtifactRecord>) -> Seq<ArtifactRecordView> {
    v.map_values(|a: ArtifactRecord| a@)
}

impl View for EvidencePacket {
    type V = EvidencePacketView;

    open spec fn view(&self) -> EvidencePacketView {
        EvidencePacketView {
            packet_version: self.packet_version@,
            created_unix_seconds: self.created_unix_seconds,
            declared_claim: self.declared_claim@,
            supported_scope: self.supported_scope@,
            limitations: views(self.limitations@),
            risk_review_note: opt_view(self.risk_review_note),
            boundary_note: self.boundary_note@,
            artifacts: record_views(self.artifacts@),
        }
    }
}

/// Why a packet could not be made.
#[derive(Debug)]
pub enum PacketError {
    /// Risky artifacts were allowed without a review note.
    RiskReviewRequired,
    /// The artifact directory does not exist.
    ArtifactDirMissing { dir: String },
    /// The artifact path is not a directory.
    NotADirectory { dir: String },
    /// A scanned file does not lie under the artifact directory.
    RelativePath { path: String },
    /// A risky artifact was found while risky artifacts were not allowed.
    RiskyArtifact { path: String, flags: Vec<String> },
    /// A file's size or contents could not be read; the message says why.
    Unreadable { message: String },
    /// The artifact directory holds no files.
    NoArtifacts { dir: String },
}

pub enum PacketErrorView {
    RiskReviewRequired,
    ArtifactDirMissing { dir: Seq<char> },
    NotADirectory { dir: Seq<char> },
    RelativePath { path: Seq<char> },
    RiskyArtifact { path: Seq<char>, flags: Seq<Seq<char>> },
    Unreadable { message: Seq<char> },
    NoArtifacts { dir: Seq<char> },
}

impl View for PacketError {
    type V = PacketErrorView;

    open spec fn view(&self) -> PacketErrorView {
        match self {
            PacketError::RiskReviewRequired => PacketErrorView::RiskReviewRequired,
            PacketError::ArtifactDirMissing { dir } => PacketErrorView::ArtifactDirMissing {
                dir: dir@,
            },
            PacketError::NotADirectory { dir } => PacketErrorView::NotADirectory { dir: dir@ },
            PacketError::RelativePath { path } => PacketErrorView::RelativePath { path: path@ },
            PacketError::RiskyArtifact { path, flags } => PacketErrorView::RiskyArtifact {
                path: path@,
                flags: views(flags@),
            },
            PacketError::Unreadable { message } => PacketErrorView::Unreadable {
                message: message@,
            },
            PacketError::NoArtifacts { dir } => PacketErrorView::NoArtifacts { dir: dir@ },
        }
    }
}

/// The message that tells a user what went wrong.
pub open spec fn error_message(e: PacketErrorView) -> Seq<char> {
    match e {
        PacketErrorView::RiskReviewRequired => "--risk-reviewed is required when --allow-risky is used"@,
        PacketErrorView::ArtifactDirMissing { dir } => "artifact directory does not exist: "@ + dir,
        PacketErrorView::NotADirectory { dir } => "artifact path is not a directory: "@ + dir,
        PacketErrorView::RelativePath { path } => "failed to calculate relative path for "@ + path,
        PacketErrorView::RiskyArtifact { path, flags } => "risky artifact refused: "@ + path + " ("@
            + join(flags, ", "@) + ")"@,
        PacketErrorView::Unreadable { message } => message,
        PacketErrorView::NoArtifacts { dir } => "artifact directory contains no files: "@ + dir,
    }
}

/// Each message names what went wrong in words of its own and, where there
/// is one, the path or directory concerned.
pub proof fn lemma_messages_name_the_problem(e: PacketErrorView)
    ensures
        e matches PacketErrorView::RiskyArtifact { path, flags } ==> error_message(e)
            == "risky artifact refused: "@ + path + " ("@ + join(flags, ", "@) + ")"@,
        e matches PacketErrorView::RiskReviewRequired ==> error_message(e)
            == "--risk-reviewed is required when --allow-risky is used"@,
        e matches PacketErrorView::NoArtifacts { dir } ==> error_message(e)
            == "artifact directory contains no files: "@ + dir,
        e matches PacketErrorView::ArtifactDirMissing { dir } ==> error_message(e)
            == "artifact directory does not exist: "@ + dir,
        e matches PacketErrorView::NotADirectory { dir } ==> error_message(e)
            == "artifact path is not a directory: "@ + dir,
        e matches PacketErrorView::RelativePath { path } ==> error_message(e)
            == "failed to calculate relative path for "@ + path,
        e matches PacketErrorView::Unreadable { message } ==> error_message(e) == message,
{
}

impl PacketError {
    /// The message that tells a user what went wrong.
    pub fn message(&self) -> (m: String)
        ensures
            m@ == error_message(self@),
    {
        match self {
            PacketError::RiskReviewRequired => String::from_str(
                "--risk-reviewed is required when --allow-risky is used",
            ),
            PacketError::ArtifactDirMissing { dir } => {
                let mut m = String::from_str("artifact directory does not exist: ");
                m.append(dir.as_str());
                m
            },
            PacketError::NotADirectory { dir } => {
                let mut m = String::from_str("artifact path is not a directory: ");
                m.append(dir.as_str());
                m
            },
            PacketError::RelativePath { path } => {
                let mut m = String::from_str("failed to calculate relative path for ");
                m.append(path.as_str());
                m
            },
            PacketError::RiskyArtifact { path, flags } => {
                let mut m = String::from_str("risky artifact refused: ");
                m.append(path.as_str());
                m.append(" (");
                let joined = join_strings(flags, ", ");
                m.append(joined.as_str());
                m.append(")");
                m
            },
            PacketError::Unreadable { message } => message.clone(),
            PacketError::NoArtifacts { dir } => {
                let mut m = String::from_str("artifact directory contains no files: ");
                m.append(dir.as_str());
                m
            },
        }
    }
}

/// Risky artifacts are allowed, but no review note says why: the note is
/// missing, or nothing is left of it once white space is trimmed.
pub open spec fn review_note_missing(allow_risky: bool, note: Option<Seq<char>>) -> bool {
    allow_risky && match note {
        Some(n) => is_blank(n),
        None => true,
    }
}

/// A review note is demanded only when risky files are allowed: without
/// `allow_risky` nothing is ever refused, whatever the note; with it, a
/// missing note is refused, and a note with any character other than white
/// space is accepted.
pub proof fn lemma_review_note_only_for_risky(note: Option<Seq<char>>)
    ensures
        !review_note_missing(false, note),
        review_note_missing(true, None),
        note matches Some(n) && (exists|i: int| 0 <= i < n.len() && !is_white_space(#[trigger] n[i]))
            ==> !review_note_missing(true, note),
        note matches Some(n) && (forall|i: int| 0 <= i < n.len() ==> is_white_space(#[trigger] n[i]))
            ==> review_note_missing(true, note),
{
}

/// Refuses risky artifacts that come without a review note.
pub fn check_risk_review(allow_risky: bool, risk_review_note: &Option<String>) -> (r: Result<
    (),
    PacketError,
>)
    ensures
        r is Err <==> review_note_missing(allow_risky, opt_view(*risk_review_note)),
        r matches Err(e) ==> e@ == PacketErrorView::RiskReviewRequired,
        !allow_risky ==> r is Ok,
        allow_risky && risk_review_note is None ==> r is Err,
{
    let missing = allow_risky && match risk_review_note {
        Some(note) => blank(note.as_str()),
        None => true,
    };
    if missing {
        Err(PacketError::RiskReviewRequired)
    } else {
        Ok(())
    }
}

/// Refuses an artifact directory that does not exist or is not a directory.
pub fn check_artifact_dir(dir: &String, exists: bool, is_dir: bool) -> (r: Result<(), PacketError>)
    ensures
        !exists ==> (r matches Err(e) && e@ == (PacketErrorView::ArtifactDirMissing { dir: dir@ })),
        exists && !is_dir ==> (r matches Err(e) && e@ == (PacketErrorView::NotADirectory {
            dir: dir@,
        })),
        exists && is_dir ==> r is Ok,
{
    if !exists {
        Err(PacketError::ArtifactDirMissing { dir: dir.clone() })
    } else if !is_dir {
        Err(PacketError::NotADirectory { dir: dir.clone() })
    } else {
        Ok(())
    }
}

/// Creates a packet from its options, the scanned artifacts and the creation
/// time. The declared claim, scope, limitations and review note are kept as
/// given; every packet gets the same version and boundary note.
pub fn create_packet(
    options: CreatePacketOptions,
    artifacts: Vec<ArtifactRecord>,
    created_unix_seconds: u64,
) -> (r: Result<EvidencePacket, PacketError>)
    ensures
        r is Err <==> review_note_missing(options.allow_risky, opt_view(options.risk_review_note)),
        r matches Err(e) ==> e@ == PacketErrorView::RiskReviewRequired,
        !options.allow_risky ==> r is Ok,
        r matches Ok(p) ==> {
            &&& p.packet_version@ == PACKET_VERSION@
            &&& p.created_unix_seconds == created_unix_seconds
            &&& p.declared_claim == options.declared_claim
            &&& p.supported_scope == options.supported_scope
            &&& p.limitations == options.limitations
            &&& p.risk_review_note == options.risk_review_note
            &&& p.boundary_note@ == BOUNDARY_NOTE@
            &&& p.artifacts == artifacts
        },
{
    check_risk_review(options.allow_risky, &options.risk_review_note)?;
    Ok(EvidencePacket {
        packet_version: String::from_str(PACKET_VERSION),
        created_unix_seconds,
        declared_claim: options.declared_claim,
        supported_scope: options.supported_scope,
        limitations: options.limitations,
        risk_review_note: options.risk_review_note,
        boundary_note: String::from_str(BOUNDARY_NOTE),
        artifacts,
    })
}

} // verus!
