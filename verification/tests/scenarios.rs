use evidence_packet::{
    create_packet, render_markdown, scan_artifacts, CreatePacketOptions, EvidencePacket,
    PacketError, ScannedFile,
};

fn root() -> Vec<String> {
    vec!["/".to_string(), "tmp".to_string(), "artifacts".to_string()]
}

fn found(name: &str, contents: &str) -> ScannedFile {
    let mut path = root();
    path.push(name.to_string());
    ScannedFile {
        display: format!("/tmp/artifacts/{}", name),
        path,
        size_bytes: Ok(contents.len() as u64),
        contents: Ok(contents.as_bytes().to_vec()),
    }
}

fn create(
    files: Vec<ScannedFile>,
    claim: &str,
    scope: &str,
    limitations: Vec<&str>,
    allow_risky: bool,
    note: Option<&str>,
) -> Result<EvidencePacket, PacketError> {
    let options = CreatePacketOptions {
        artifact_dir: "/tmp/artifacts".to_string(),
        declared_claim: claim.to_string(),
        supported_scope: scope.to_string(),
        limitations: limitations.into_iter().map(|l| l.to_string()).collect(),
        allow_risky,
        risk_review_note: note.map(|n| n.to_string()),
    };
    // The review note is checked before anything is scanned.
    evidence_packet::check_risk_review(options.allow_risky, &options.risk_review_note)?;
    let artifacts =
        scan_artifacts(&options.artifact_dir, &root(), &files, options.allow_risky)?;
    create_packet(options, artifacts, 1_700_000_000)
}

#[test]
fn create_writes_json_and_markdown_packet_for_safe_artifacts() {
    let packet = create(
        vec![
            found("demo-output.txt", "claim table\n"),
            found("notes.md", "# Notes\nSynthetic demo only.\n"),
        ],
        "The CLI generated a claim review table from sample input.",
        "local demo on synthetic markdown",
        vec!["does not establish production readiness"],
        false,
        None,
    )
    .unwrap();

    assert_eq!(
        packet.declared_claim,
        "The CLI generated a claim review table from sample input."
    );
    assert_eq!(packet.supported_scope, "local demo on synthetic markdown");
    assert_eq!(packet.artifacts.len(), 2);
    assert_eq!(packet.artifacts[0].path, "demo-output.txt");
    assert_eq!(packet.artifacts[1].path, "notes.md");
    assert!(packet.artifacts[0]
        .sha256
        .chars()
        .all(|ch| ch.is_ascii_hexdigit()));
    assert_eq!(packet.artifacts[0].sha256.len(), 64);

    let markdown = render_markdown(&packet);
    assert!(markdown.contains("# Evidence Packet"));
    assert!(markdown.contains("This packet records supplied artifacts and declared boundaries."));
    assert!(markdown.contains("It does not prove that the declared claim is true."));
    assert!(markdown.contains("demo-output.txt"));
}

#[test]
fn create_refuses_risky_private_artifacts_by_default() {
    let result = create(
        vec![found(".env", "TOKEN=secret\n")],
        "The demo has supporting artifacts.",
        "local synthetic demo",
        vec![],
        false,
        None,
    );
    let err = result.unwrap_err();
    assert!(err.message().contains("risky artifact"));
}

#[test]
fn allow_risky_records_warning_flags_instead_of_silently_accepting() {
    let packet = create(
        vec![found(".env", "TOKEN=synthetic\n")],
        "The demo has supporting artifacts.",
        "local synthetic demo",
        vec![],
        true,
        Some("synthetic fixture intentionally included for risk-flag coverage"),
    )
    .unwrap();
    assert_eq!(packet.artifacts[0].path, ".env");
    assert_eq!(
        packet.risk_review_note.as_deref(),
        Some("synthetic fixture intentionally included for risk-flag coverage")
    );
    assert_eq!(
        packet.artifacts[0].risk_flags[0],
        "possible_private_or_secret_file"
    );
}

#[test]
fn allow_risky_requires_review_note() {
    let result = create(
        vec![found(".env.local", "TOKEN=synthetic\n")],
        "The demo has supporting artifacts.",
        "local synthetic demo",
        vec![],
        true,
        None,
    );
    let err = result.unwrap_err();
    assert!(err.message().contains("--risk-reviewed is required"));
}

#[test]
fn markdown_escapes_pipe_characters_in_artifact_paths() {
    let packet = create(
        vec![found("a|b.txt", "sample\n")],
        "The demo has supporting artifacts.",
        "local synthetic demo",
        vec![],
        false,
        None,
    )
    .unwrap();
    let markdown = render_markdown(&packet);
    assert!(markdown.contains("`a\\|b.txt`"));
    assert!(!markdown.contains("`a|b.txt`"));
}
