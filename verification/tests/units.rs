use evidence_packet::risk::file_name;
use evidence_packet::{
    check_artifact_dir, check_risk_review, create_packet, escape_markdown_table_cell,
    relative_artifact_path, render_markdown, risk_flags_for, scan_artifacts, sha256_hex,
    should_scan_entry, ArtifactRecord, CreatePacketOptions, EvidencePacket, PacketError,
    ScannedFile, BOUNDARY_NOTE,
};
use std::path::Path;

const PRIVATE: &str = "possible_private_or_secret_file";
const SCRATCH: &str = "scratch_or_cache_artifact";
const GENERATED: &str = "generated_or_local_machine_artifact";

fn strings(v: &[&str]) -> Vec<String> {
    v.iter().map(|s| s.to_string()).collect()
}

fn root() -> Vec<String> {
    strings(&["/", "data", "art"])
}

fn found(relative: &[&str], contents: &str) -> ScannedFile {
    let mut path = root();
    path.extend(relative.iter().map(|c| c.to_string()));
    ScannedFile {
        display: format!("/data/art/{}", relative.join("/")),
        path,
        size_bytes: Ok(contents.len() as u64),
        contents: Ok(contents.as_bytes().to_vec()),
    }
}

fn dup(f: &ScannedFile) -> ScannedFile {
    ScannedFile {
        path: f.path.clone(),
        display: f.display.clone(),
        size_bytes: f.size_bytes.clone(),
        contents: f.contents.clone(),
    }
}

fn scan(files: &[ScannedFile], allow_risky: bool) -> Result<Vec<ArtifactRecord>, PacketError> {
    let files: Vec<ScannedFile> = files.iter().map(dup).collect();
    scan_artifacts(&"/data/art".to_string(), &root(), &files, allow_risky)
}

#[test]
fn file_name_agrees_with_std_paths() {
    let cases = [
        "", "a", "a/b", "a/b.txt", "/a", "/", "//", "a/", "a//", ".", "./", "./a", "a/.",
        "a/./", "..", "a/..", "../a", "a/../b", "...", "a/...", ".env", "dir/.env.local",
        "a/b/c/", "x/./.", "é/ü.txt",
    ];
    for case in cases {
        let chars: Vec<char> = case.chars().collect();
        let ours = file_name(&chars).map(|v| v.into_iter().collect::<String>());
        let std = Path::new(case)
            .file_name()
            .map(|n| n.to_string_lossy().into_owned());
        assert_eq!(ours, std, "file name of {:?}", case);
    }
}

#[test]
fn risk_flags_for_private_files() {
    for path in [
        ".env",
        "config/.ENV.local",
        "keys/server.PEM",
        "a.key",
        "b.p12",
        "c.pfx",
        "certs/d.crt",
        "home/id_rsa",
        "id_dsa",
        "docs/My_Token_List.txt",
        "SECRETS.json",
        "aws-credentials",
        "Private/notes.txt",
        "token_dir/",
    ] {
        assert_eq!(risk_flags_for(path), strings(&[PRIVATE]), "{}", path);
    }
}

#[test]
fn risk_flags_for_scratch_and_generated_files() {
    assert_eq!(risk_flags_for("cache/data.json"), strings(&[SCRATCH]));
    assert_eq!(risk_flags_for("a/TMP/b.txt"), strings(&[SCRATCH]));
    assert_eq!(risk_flags_for("Scratchpad.md"), strings(&[SCRATCH]));
    assert_eq!(risk_flags_for("local.sqlite"), strings(&[SCRATCH]));
    assert_eq!(risk_flags_for("x.DB"), strings(&[SCRATCH]));
    assert_eq!(risk_flags_for(".DS_Store"), strings(&[GENERATED]));
    assert_eq!(risk_flags_for("pkg/mod.pyc"), strings(&[GENERATED]));
    assert_eq!(
        risk_flags_for("private_cache.pyc"),
        strings(&[PRIVATE, SCRATCH, GENERATED])
    );
}

#[test]
fn risk_flags_for_safe_files() {
    for path in [
        "notes.md",
        "tmp/b.txt",
        "secret_dir/readme.txt",
        "env",
        "a.env",
        "report.dbx",
        "",
    ] {
        assert_eq!(risk_flags_for(path), Vec::<String>::new(), "{}", path);
    }
    // The file name of a path that ends in `..` is nothing at all.
    assert_eq!(risk_flags_for("tokens/.."), Vec::<String>::new());
}

#[test]
fn risk_flags_ignore_case() {
    for path in ["A/.ENV", "Keys/ID_RSA", "Cache/X.PYC", "readme.MD"] {
        assert_eq!(risk_flags_for(path), risk_flags_for(&path.to_ascii_lowercase()));
    }
}

#[test]
fn scan_skips_only_listed_directories() {
    for name in [".git", "target", "node_modules", "__pycache__", ".next"] {
        assert!(!should_scan_entry(true, name));
        assert!(should_scan_entry(false, name));
    }
    assert!(should_scan_entry(true, "src"));
    assert!(should_scan_entry(true, ".github"));
    assert!(should_scan_entry(true, "Target"));
}

#[test]
fn escape_table_cells() {
    assert_eq!(escape_markdown_table_cell("a|b.txt"), "a\\|b.txt");
    assert_eq!(escape_markdown_table_cell("c:\\dir\\f"), "c:\\\\dir\\\\f");
    assert_eq!(escape_markdown_table_cell("`x`"), "\\`x\\`");
    assert_eq!(escape_markdown_table_cell("one\ntwo\r\n"), "one two  ");
    assert_eq!(escape_markdown_table_cell("\\|"), "\\\\\\|");
    assert_eq!(escape_markdown_table_cell("plain name.txt"), "plain name.txt");
    assert_eq!(escape_markdown_table_cell(""), "");
}

#[test]
fn sha256_hex_of_known_inputs() {
    assert_eq!(
        sha256_hex(&b"abc".to_vec()),
        "ba7816bf8f01cfea414140de5dae2223b00361a396177a9cb410ff61f20015ad"
    );
    assert_eq!(
        sha256_hex(&Vec::new()),
        "e3b0c44298fc1c149afbf4c8996fb92427ae41e4649b934ca495991b7852b855"
    );
}

#[test]
fn scan_records_sizes_hashes_and_flags() {
    let records = scan(&[found(&["sample.txt"], "sample\n")], false).unwrap();
    assert_eq!(records.len(), 1);
    assert_eq!(records[0].path, "sample.txt");
    assert_eq!(records[0].size_bytes, 7);
    assert_eq!(
        records[0].sha256,
        "aaf9ff488e0767da5ea1d56118e6f65a16c5633b0cefc1fa089bd3ab1810613d"
    );
    assert!(records[0].risk_flags.is_empty());
}

#[test]
fn scan_orders_by_components_not_by_text() {
    let records = scan(
        &[
            found(&["a.txt"], "1"),
            found(&["a", "b"], "2"),
            found(&["b"], "3"),
            found(&["B"], "4"),
            found(&["a", "a"], "5"),
        ],
        false,
    )
    .unwrap();
    let paths: Vec<_> = records.iter().map(|r| r.path.as_str()).collect();
    assert_eq!(paths, vec!["B", "a/a", "a/b", "a.txt", "b"]);
}

#[test]
fn scan_of_empty_directory_is_refused() {
    let err = scan(&[], false).unwrap_err();
    assert_eq!(err.message(), "artifact directory contains no files: /data/art");
}

#[test]
fn scan_stops_at_the_first_failing_file_in_path_order() {
    let mut unreadable = found(&["a.txt"], "x");
    unreadable.contents = Err("failed to read /data/art/a.txt".to_string());
    let risky = found(&["z.pem"], "x");
    let risky_env = found(&[".env"], "x");

    // An unreadable file that comes first is reported first.
    let err = scan(&[dup(&risky), dup(&unreadable)], false).unwrap_err();
    assert_eq!(err.message(), "failed to read /data/art/a.txt");

    // A risky file that comes first is refused before a later file is read.
    let err = scan(&[dup(&unreadable), dup(&risky_env)], false).unwrap_err();
    assert_eq!(
        err.message(),
        "risky artifact refused: .env (possible_private_or_secret_file)"
    );

    // With risky files allowed, the unreadable file is what stops the scan.
    let err = scan(&[dup(&unreadable), dup(&risky_env)], true).unwrap_err();
    assert_eq!(err.message(), "failed to read /data/art/a.txt");

    let mut no_size = found(&["c.txt"], "x");
    no_size.size_bytes = Err("failed to read metadata for /data/art/c.txt".to_string());
    no_size.contents = Err("never read".to_string());
    let err = scan(&[no_size], false).unwrap_err();
    assert_eq!(err.message(), "failed to read metadata for /data/art/c.txt");
}

#[test]
fn scan_lists_every_risk_flag_when_allowed() {
    let records = scan(&[found(&["cache", "private.pyc"], "x")], true).unwrap();
    assert_eq!(
        records[0].risk_flags,
        strings(&[PRIVATE, SCRATCH, GENERATED])
    );
}

#[test]
fn relative_paths() {
    let display = "/elsewhere/x".to_string();
    let rel = relative_artifact_path(&root(), &strings(&["/", "data", "art", "n", "f.txt"]), &display)
        .unwrap();
    assert_eq!(rel, "n/f.txt");
    let same = relative_artifact_path(&root(), &root(), &display).unwrap();
    assert_eq!(same, "");
    let err = relative_artifact_path(&root(), &strings(&["/", "elsewhere", "x"]), &display)
        .unwrap_err();
    assert_eq!(err.message(), "failed to calculate relative path for /elsewhere/x");
    let err = relative_artifact_path(&root(), &strings(&["/", "data"]), &display).unwrap_err();
    assert_eq!(err.message(), "failed to calculate relative path for /elsewhere/x");
}

#[test]
fn artifact_directory_checks() {
    let dir = "/nowhere".to_string();
    assert_eq!(
        check_artifact_dir(&dir, false, false).unwrap_err().message(),
        "artifact directory does not exist: /nowhere"
    );
    assert_eq!(
        check_artifact_dir(&dir, true, false).unwrap_err().message(),
        "artifact path is not a directory: /nowhere"
    );
    assert!(check_artifact_dir(&dir, true, true).is_ok());
}

#[test]
fn review_note_must_say_something() {
    assert!(check_risk_review(false, &None).is_ok());
    assert!(check_risk_review(false, &Some(" ".to_string())).is_ok());
    assert!(check_risk_review(true, &Some("reviewed".to_string())).is_ok());
    assert!(check_risk_review(true, &Some("  x \n".to_string())).is_ok());
    for blank in ["", "   ", "\t\n\r", "\u{3000}\u{a0}", "\u{2028}\u{200a}"] {
        assert!(blank.trim().is_empty());
        let err = check_risk_review(true, &Some(blank.to_string())).unwrap_err();
        assert_eq!(
            err.message(),
            "--risk-reviewed is required when --allow-risky is used"
        );
    }
    assert!(check_risk_review(true, &None).is_err());
    // A character that `str::trim` keeps is not white space.
    assert!(!"\u{200b}".trim().is_empty());
    assert!(check_risk_review(true, &Some("\u{200b}".to_string())).is_ok());
}

fn options(allow_risky: bool, note: Option<&str>, limitations: &[&str]) -> CreatePacketOptions {
    CreatePacketOptions {
        artifact_dir: "/data/art".to_string(),
        declared_claim: "Claim".to_string(),
        supported_scope: "Scope".to_string(),
        limitations: strings(limitations),
        allow_risky,
        risk_review_note: note.map(|n| n.to_string()),
    }
}

#[test]
fn create_packet_keeps_what_was_declared() {
    let packet = create_packet(options(true, Some("ok"), &["l1", "l2"]), vec![], 42).unwrap();
    assert_eq!(packet.packet_version, "0.1");
    assert_eq!(packet.created_unix_seconds, 42);
    assert_eq!(packet.declared_claim, "Claim");
    assert_eq!(packet.supported_scope, "Scope");
    assert_eq!(packet.limitations, strings(&["l1", "l2"]));
    assert_eq!(packet.risk_review_note.as_deref(), Some("ok"));
    assert_eq!(packet.boundary_note, BOUNDARY_NOTE);
    assert!(packet.artifacts.is_empty());
    assert!(create_packet(options(true, Some(" "), &[]), vec![], 42).is_err());
}

fn record(path: &str, size: u64, flags: &[&str]) -> ArtifactRecord {
    ArtifactRecord {
        path: path.to_string(),
        size_bytes: size,
        sha256: "ab".repeat(32),
        risk_flags: strings(flags),
    }
}

#[test]
fn render_markdown_exactly() {
    let packet: EvidencePacket = create_packet(
        options(true, Some("checked by hand"), &["only a demo", "no | pipes here"]),
        vec![record("a|b.txt", 0, &[]), record("dir/.env", 1234567, &[PRIVATE, SCRATCH])],
        7,
    )
    .unwrap();
    let expected = format!(
        "# Evidence Packet\n\n## Boundary Note\n\n{}\n\n## Declared Claim\n\nClaim\n\n\
         ## Supported Scope\n\nScope\n\n## Limitations\n\n- only a demo\n- no | pipes here\n\n\
         ## Risk Review\n\nchecked by hand\n\n## Artifacts\n\n\
         | Path | Size Bytes | SHA-256 | Risk Flags |\n|---|---:|---|---|\n\
         | `a\\|b.txt` | 0 | `{}` | none |\n\
         | `dir/.env` | 1234567 | `{}` | possible_private_or_secret_file, scratch_or_cache_artifact |\n",
        BOUNDARY_NOTE,
        "ab".repeat(32),
        "ab".repeat(32)
    );
    assert_eq!(render_markdown(&packet), expected);
}

#[test]
fn render_markdown_without_limitations_or_review() {
    let packet = create_packet(options(false, None, &[]), vec![record("x", 10, &[])], 7).unwrap();
    let markdown = render_markdown(&packet);
    assert!(markdown.contains("## Limitations\n\n- No limitations were declared.\n\n## Risk Review"));
    assert!(markdown.contains("## Risk Review\n\nNo risky artifacts were explicitly allowed.\n\n"));
    assert!(markdown.ends_with("| `x` | 10 | `{}` | none |\n".replace("{}", &"ab".repeat(32)).as_str()));
}

#[test]
fn scan_ignores_listing_order() {
    let listing = [
        found(&["z.txt"], "z"),
        found(&["a", "b.txt"], "ab"),
        found(&["a.txt"], "a"),
        found(&["m", "n", "o.md"], "mno"),
    ];
    let first = scan(&listing, false).unwrap();
    let reversed: Vec<ScannedFile> = listing.iter().rev().map(dup).collect();
    let second = scan(&reversed, false).unwrap();
    let shape = |records: &Vec<ArtifactRecord>| -> Vec<(String, u64, String)> {
        records
            .iter()
            .map(|r| (r.path.clone(), r.size_bytes, r.sha256.clone()))
            .collect()
    };
    assert_eq!(shape(&first), shape(&second));
    for record in &first {
        assert_eq!(record.sha256.len(), 64);
        assert!(record.sha256.chars().all(|c| c.is_ascii_hexdigit() && !c.is_ascii_uppercase()));
    }
}

#[test]
fn relative_path_splits_back_into_components() {
    let display = "/data/art/m/n/o.md".to_string();
    let path = strings(&["/", "data", "art", "m", "n", "o.md"]);
    let rel = relative_artifact_path(&root(), &path, &display).unwrap();
    assert!(!rel.starts_with('/') && !rel.ends_with('/') && !rel.contains("//"));
    let mut rejoined = root();
    rejoined.extend(rel.split('/').map(|c| c.to_string()));
    assert_eq!(rejoined, path);
    assert!(Path::new("/data/art").join(&rel).components().eq(Path::new("/data/art/m/n/o.md").components()));
}
