use trace_identifier::artifacts::{Abi, Artifact, ArtifactId, Catalogue};
use trace_identifier::identifier::{Address, AddressEntry, LocalTraceIdentifier};
use trace_identifier::scorer::ByteDiffScorer;

fn artifact(
    creation: Option<Vec<u8>>,
    deployed: Option<Vec<u8>>,
    constructor_params: Option<Vec<String>>,
) -> Artifact {
    Artifact {
        abi: Abi { constructor_params },
        bytecode: creation,
        deployed_bytecode: deployed,
    }
}

fn id(source: &str, name: &str) -> ArtifactId {
    ArtifactId { name: name.to_string(), source: source.to_string() }
}

fn addr(byte: u8) -> Address {
    Address { bytes: vec![byte; 20] }
}

#[test]
fn artifact_identifier_joins_source_and_name() {
    let foo = id("src/Foo.sol", "Foo");
    assert_eq!(foo.identifier(), "src/Foo.sol:Foo");
}

#[test]
fn exact_creation_match_returns_artifact() {
    // One artifact whose creation code equals the observed creation code:
    // the windowed creation pass hits an exact match.
    let mut catalogue = Catalogue::new();
    catalogue.push(
        id("src/Foo.sol", "Foo"),
        artifact(Some(vec![0x60, 0x01]), Some(vec![0x60, 0x02]), None),
    );
    let identifier = LocalTraceIdentifier::new(catalogue, ByteDiffScorer);
    let found = identifier.identify_code(&[0x60, 0x02], &[0x60, 0x01]);
    let (found_id, _abi) = found.expect("exact creation match must be reported");
    assert_eq!(found_id.name, "Foo");
    assert_eq!(found_id.identifier(), "src/Foo.sol:Foo");
}

#[test]
fn artifact_without_creation_code_is_never_identified() {
    // An artifact that stores no creation bytecode never enters the index,
    // so no lookup can resolve to it.
    let mut catalogue = Catalogue::new();
    catalogue.push(id("src/Token.sol", "Token"), artifact(None, Some(vec![0xAA, 0xBB]), None));
    let identifier = LocalTraceIdentifier::new(catalogue, ByteDiffScorer);
    assert!(identifier.identify_code(&[0xAA, 0xBB], &[0x01]).is_none());
    assert!(identifier.identify_code(&[0x01, 0x02], &[0xAA, 0xBB]).is_none());

    let entries = vec![AddressEntry {
        address: addr(0x11),
        runtime_code: Some(vec![0xAA, 0xBB]),
        creation_code: Some(vec![0xAA, 0xBB]),
    }];
    assert!(identifier.identify_addresses(&entries).is_empty());
}

#[test]
fn empty_catalogue_resolves_nothing() {
    let identifier = LocalTraceIdentifier::new(Catalogue::new(), ByteDiffScorer);
    assert!(identifier.identify_code(&[0x01], &[0x02]).is_none());
}

#[test]
fn exact_deployed_match_found_by_fallback() {
    // The creation codes are completely different, so the windowed pass finds
    // nothing below the threshold; the deployed-code fallback then hits the
    // byte-identical runtime code.
    let mut catalogue = Catalogue::new();
    catalogue.push(
        id("src/A.sol", "A"),
        artifact(Some(vec![1, 2, 3, 4]), Some(vec![9, 9, 9, 9]), None),
    );
    let identifier = LocalTraceIdentifier::new(catalogue, ByteDiffScorer);
    let found = identifier.identify_code(&[9, 9, 9, 9], &[5, 6, 7, 8]);
    let (found_id, _) = found.expect("deployed fallback must report the exact match");
    assert_eq!(found_id.name, "A");
}

#[test]
fn scores_at_threshold_are_rejected() {
    // 17 of 20 bytes differ in both comparisons: both scores are exactly 0.85
    // of the scale, which the threshold refuses.
    let base: Vec<u8> = (0u8..20).collect();
    let mut observed = base.clone();
    for slot in observed.iter_mut().take(17) {
        *slot = slot.wrapping_add(100);
    }
    let mut catalogue = Catalogue::new();
    catalogue.push(id("src/B.sol", "B"), artifact(Some(base.clone()), Some(base.clone()), None));
    let identifier = LocalTraceIdentifier::new(catalogue, ByteDiffScorer);
    assert!(identifier.identify_code(&observed, &observed).is_none());
}

#[test]
fn score_below_threshold_is_accepted() {
    // 16 of 20 bytes differ: the score is 0.80 of the scale, below the
    // threshold, so the artifact is reported.
    let base: Vec<u8> = (0u8..20).collect();
    let mut observed = base.clone();
    for slot in observed.iter_mut().take(16) {
        *slot = slot.wrapping_add(100);
    }
    let mut catalogue = Catalogue::new();
    catalogue.push(id("src/C.sol", "C"), artifact(Some(base.clone()), Some(base.clone()), None));
    let identifier = LocalTraceIdentifier::new(catalogue, ByteDiffScorer);
    let found = identifier.identify_code(&observed, &observed);
    assert_eq!(found.expect("a score below the threshold is a match").0.name, "C");
}

#[test]
fn leftmost_of_equal_lengths_wins() {
    // Three artifacts of equal deployed length whose creation code all match
    // the observed creation code exactly: the scan starts at the leftmost
    // slot of that length, so the first catalogue entry wins.
    let mut catalogue = Catalogue::new();
    catalogue.push(id("src/A.sol", "A"), artifact(Some(vec![7, 7]), Some(vec![1, 1, 1, 1]), None));
    catalogue.push(id("src/B.sol", "B"), artifact(Some(vec![7, 7]), Some(vec![2, 2, 2, 2]), None));
    catalogue.push(id("src/C.sol", "C"), artifact(Some(vec![7, 7]), Some(vec![3, 3, 3, 3]), None));
    let identifier = LocalTraceIdentifier::new(catalogue, ByteDiffScorer);
    let found = identifier.identify_code(&[1, 1, 1, 1], &[7, 7]);
    assert_eq!(found.expect("an exact creation match exists").0.name, "A");
}

#[test]
fn window_excludes_far_lengths() {
    // For observed length 1000 the windowed passes cover lengths 900..=1100
    // only. This artifact's deployed length is 1200, so its creation code —
    // although byte-identical to the observed creation code — is never
    // compared; only the deployed fallback reaches the artifact, and there
    // every byte differs, so nothing is reported.
    let creation: Vec<u8> = vec![0x42; 10];
    let mut catalogue = Catalogue::new();
    catalogue.push(
        id("src/Far.sol", "Far"),
        artifact(Some(creation.clone()), Some(vec![0xFF; 1200]), None),
    );
    let identifier = LocalTraceIdentifier::new(catalogue, ByteDiffScorer);
    assert!(identifier.identify_code(&vec![0x01; 1000], &creation).is_none());
}

#[test]
fn window_includes_near_lengths() {
    // Same setup, but the deployed length 1100 lies on the window edge, so
    // the creation code is compared and matches exactly.
    let creation: Vec<u8> = vec![0x42; 10];
    let mut catalogue = Catalogue::new();
    catalogue.push(
        id("src/Near.sol", "Near"),
        artifact(Some(creation.clone()), Some(vec![0xFF; 1100]), None),
    );
    let identifier = LocalTraceIdentifier::new(catalogue, ByteDiffScorer);
    let found = identifier.identify_code(&vec![0x01; 1000], &creation);
    assert_eq!(found.expect("length 1100 lies inside the window").0.name, "Near");
}

#[test]
fn constructor_arguments_are_stripped() {
    // A candidate with 50 bytes of creation code and a single uint256
    // constructor parameter, observed with 82 bytes (50 bytes of code plus a
    // 32-byte encoded argument): the tail decodes, so only the first 50 bytes
    // are compared and the match is exact.
    let code: Vec<u8> = (0u8..50).collect();
    let mut observed = code.clone();
    observed.extend_from_slice(&[0u8; 31]);
    observed.push(0x2A);
    assert_eq!(observed.len(), 82);
    let mut catalogue = Catalogue::new();
    catalogue.push(
        id("src/Ctor.sol", "Ctor"),
        artifact(
            Some(code.clone()),
            Some(vec![0x55; 82]),
            Some(vec!["uint256".to_string()]),
        ),
    );
    let identifier = LocalTraceIdentifier::new(catalogue, ByteDiffScorer);
    let found = identifier.identify_code(&vec![0x55; 82], &observed);
    assert_eq!(found.expect("stripped comparison is exact").0.name, "Ctor");
}

#[test]
fn successful_decode_is_what_strips_the_tail() {
    // The candidate's creation code is 4 bytes and the observed code carries a
    // decodable 32-byte uint256 tail. Unstripped, the comparison scores
    // 32 / 36 of the scale (above the threshold) and the deployed codes are
    // completely different, so identification succeeds only because the tail
    // is stripped after a successful decode.
    let code = vec![1, 2, 3, 4];
    let mut observed = code.clone();
    observed.extend_from_slice(&[0u8; 32]);
    let mut catalogue = Catalogue::new();
    catalogue.push(
        id("src/Sharp.sol", "Sharp"),
        artifact(Some(code.clone()), Some(vec![7, 7, 7, 7]), Some(vec!["uint256".to_string()])),
    );
    let identifier = LocalTraceIdentifier::new(catalogue, ByteDiffScorer);
    let found = identifier.identify_code(&[9, 9, 9, 9], &observed);
    assert_eq!(found.expect("decodable tail must be stripped").0.name, "Sharp");
}

#[test]
fn failed_decode_leaves_the_tail_in_place() {
    // Same candidate, but the tail is 31 bytes: uint256 needs a full 32-byte
    // word, the decode fails, the comparison runs over all 35 bytes and stays
    // above the threshold, and the deployed codes are completely different —
    // so nothing is reported.
    let code = vec![1, 2, 3, 4];
    let mut observed = code.clone();
    observed.extend_from_slice(&[0u8; 31]);
    let mut catalogue = Catalogue::new();
    catalogue.push(
        id("src/Sharp.sol", "Sharp"),
        artifact(Some(code.clone()), Some(vec![7, 7, 7, 7]), Some(vec!["uint256".to_string()])),
    );
    let identifier = LocalTraceIdentifier::new(catalogue, ByteDiffScorer);
    assert!(identifier.identify_code(&[9, 9, 9, 9], &observed).is_none());
}

#[test]
fn identify_addresses_skips_missing_code_and_keeps_order() {
    let mut catalogue = Catalogue::new();
    catalogue.push(
        id("src/Foo.sol", "Foo"),
        artifact(Some(vec![0x60, 0x01]), Some(vec![0x60, 0x02]), None),
    );
    let identifier = LocalTraceIdentifier::new(catalogue, ByteDiffScorer);
    let entries = vec![
        AddressEntry {
            address: addr(0x01),
            runtime_code: None,
            creation_code: Some(vec![0x60, 0x01]),
        },
        AddressEntry {
            address: addr(0x02),
            runtime_code: Some(vec![0x60, 0x02]),
            creation_code: Some(vec![0x60, 0x01]),
        },
        AddressEntry {
            address: addr(0x03),
            runtime_code: Some(vec![0x60, 0x02]),
            creation_code: None,
        },
        AddressEntry {
            address: addr(0x04),
            runtime_code: Some(vec![0xDE, 0xAD]),
            creation_code: Some(vec![0xBE, 0xEF]),
        },
    ];
    let identities = identifier.identify_addresses(&entries);
    assert_eq!(identities.len(), 1);
    let identity = &identities[0];
    assert_eq!(identity.address.bytes, vec![0x02; 20]);
    assert_eq!(identity.contract.as_deref(), Some("src/Foo.sol:Foo"));
    assert_eq!(identity.label.as_deref(), Some("Foo"));
    assert!(identity.abi.is_some());
    assert_eq!(identity.artifact_id.as_ref().map(|i| i.name.as_str()), Some("Foo"));
}

#[test]
fn identification_is_idempotent() {
    let mut catalogue = Catalogue::new();
    catalogue.push(
        id("src/Foo.sol", "Foo"),
        artifact(Some(vec![0x60, 0x01]), Some(vec![0x60, 0x02]), None),
    );
    catalogue.push(
        id("src/Bar.sol", "Bar"),
        artifact(Some(vec![0x61, 0x01, 0x02]), Some(vec![0x61, 0x02, 0x03]), None),
    );
    let identifier = LocalTraceIdentifier::new(catalogue, ByteDiffScorer);
    let entries = vec![
        AddressEntry {
            address: addr(0x01),
            runtime_code: Some(vec![0x60, 0x02]),
            creation_code: Some(vec![0x60, 0x01]),
        },
        AddressEntry {
            address: addr(0x02),
            runtime_code: Some(vec![0x61, 0x02, 0x03]),
            creation_code: Some(vec![0x61, 0x01, 0x02]),
        },
    ];
    let first = identifier.identify_addresses(&entries);
    let second = identifier.identify_addresses(&entries);
    assert_eq!(first.len(), second.len());
    for (a, b) in first.iter().zip(second.iter()) {
        assert_eq!(a.address.bytes, b.address.bytes);
        assert_eq!(a.contract, b.contract);
        assert_eq!(a.label, b.label);
        assert_eq!(a.artifact_id.as_ref().map(|i| i.identifier()), b.artifact_id.as_ref().map(|i| i.identifier()));
    }
}
