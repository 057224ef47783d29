use evidence_packet::{create_packet, scan_artifacts, CreatePacketOptions, ScannedFile};

fn root() -> Vec<String> {
    vec!["/".to_string(), "tmp".to_string(), "artifacts".to_string()]
}

fn found(relative: &[&str], contents: &str) -> ScannedFile {
    let mut path = root();
    path.extend(relative.iter().map(|c| c.to_string()));
    ScannedFile {
        display: format!("/tmp/artifacts/{}", relative.join("/")),
        path,
        size_bytes: Ok(contents.len() as u64),
        contents: Ok(contents.as_bytes().to_vec()),
    }
}

#[test]
fn scan_orders_artifacts_by_relative_path() {
    let files = vec![
        found(&["zeta.txt"], "z\n"),
        found(&["alpha.txt"], "a\n"),
        found(&["nested", "middle.txt"], "m\n"),
    ];
    let artifacts = scan_artifacts(&"/tmp/artifacts".to_string(), &root(), &files, false).unwrap();
    let packet = create_packet(
        CreatePacketOptions {
            artifact_dir: "/tmp/artifacts".to_string(),
            declared_claim: "A local demo produced sample output.".to_string(),
            supported_scope: "local demo".to_string(),
            limitations: vec!["synthetic data only".to_string()],
            allow_risky: false,
            risk_review_note: None,
        },
        artifacts,
        1_700_000_000,
    )
    .unwrap();

    let paths: Vec<_> = packet
        .artifacts
        .iter()
        .map(|artifact| artifact.path.as_str())
        .collect();
    assert_eq!(paths, vec!["alpha.txt", "nested/middle.txt", "zeta.txt"]);
}

#[test]
fn packet_has_boundary_note_that_does_not_overclaim_verification() {
    let files = vec![found(&["artifact.txt"], "sample\n")];
    let artifacts = scan_artifacts(&"/tmp/artifacts".to_string(), &root(), &files, false).unwrap();
    let packet = create_packet(
        CreatePacketOptions {
            artifact_dir: "/tmp/artifacts".to_string(),
            declared_claim: "The local example ran.".to_string(),
            supported_scope: "one local sample run".to_string(),
            limitations: vec![],
            allow_risky: false,
            risk_review_note: None,
        },
        artifacts,
        1_700_000_000,
    )
    .unwrap();

    assert!(packet.boundary_note.contains("does not prove"));
    assert!(packet.boundary_note.contains("does not verify truth"));
}
