use brioche::blob::{
    check_fetched_blob, is_file_exclusive, local_blob_path, local_temp_path, parse_blob_alias_row,
    plan_blob_path, plan_save_blob, plan_save_blob_from_file, plan_save_blob_from_reader,
    BlobPathPlan, BlobWriteStep, FileWriteStep, SaveBlobOptions, SaveBlobPermits,
    SaveFromReaderError, MAX_CONCURRENT_BLOB_SAVES,
};
use brioche::hashing::{BlobHash, ValidationHash};
use sha2::Digest;

fn permits() -> SaveBlobPermits {
    SaveBlobPermits::new()
}

#[test]
fn save_blob_hash_is_blake3() {
    let mut pool = permits();
    let permit = pool.get_save_blob_permit().expect("pool starts full");
    let plan = plan_save_blob("/home", &permit, b"hello", &SaveBlobOptions::new(), false)
        .expect("no expected hash, must succeed");
    assert_eq!(plan.blob_hash.as_bytes(), blake3::hash(b"hello").as_bytes());
    assert_eq!(
        plan.blob_path,
        format!("/home/blobs/{}", hex::encode(blake3::hash(b"hello").as_bytes()))
    );
    assert!(plan.alias_key.is_none());
    assert!(matches!(plan.step, BlobWriteStep::WriteTemp { .. }));
}

#[test]
fn save_blob_existing_target_not_rewritten() {
    let mut pool = permits();
    let permit = pool.get_save_blob_permit().unwrap();
    let plan = plan_save_blob("/home", &permit, b"hello", &SaveBlobOptions::new(), true).unwrap();
    assert!(matches!(plan.step, BlobWriteStep::AlreadyPresent));
}

#[test]
fn save_blob_records_alias_on_match() {
    let mut pool = permits();
    let permit = pool.get_save_blob_permit().unwrap();
    let digest = sha2::Sha256::digest(b"hello").to_vec();
    let options = SaveBlobOptions::new()
        .expected_hash(Some(ValidationHash::Sha256 { value: digest.clone() }));
    let plan = plan_save_blob("/home", &permit, b"hello", &options, false)
        .expect("matching expected hash must succeed");
    assert_eq!(
        plan.alias_key.as_deref(),
        Some(format!("sha256:{}", hex::encode(digest)).as_str())
    );
}

#[test]
fn save_blob_rejects_mismatched_hash() {
    let mut pool = permits();
    let permit = pool.get_save_blob_permit().unwrap();
    let digest = sha2::Sha256::digest(b"other").to_vec();
    let options = SaveBlobOptions::new().expected_hash(Some(ValidationHash::Sha256 {
        value: digest,
    }));
    assert!(plan_save_blob("/home", &permit, b"hello", &options, false).is_err());
}

#[test]
fn save_blob_from_reader_rejects_remove_input() {
    let mut pool = permits();
    let permit = pool.get_save_blob_permit().unwrap();
    let options = SaveBlobOptions::new().remove_input(true);
    match plan_save_blob_from_reader("/home", &permit, b"hello", &options) {
        Err(SaveFromReaderError::RemoveInputUnsupported) => {}
        _ => panic!("remove_input from a reader must be rejected"),
    }
}

#[test]
fn save_blob_from_reader_plans_fresh_write() {
    let mut pool = permits();
    let permit = pool.get_save_blob_permit().unwrap();
    let plan =
        plan_save_blob_from_reader("/home", &permit, b"hello", &SaveBlobOptions::new()).unwrap();
    assert!(matches!(plan.step, BlobWriteStep::WriteTemp { .. }));
}

#[test]
fn save_blob_from_reader_rejects_mismatched_hash() {
    let mut pool = permits();
    let permit = pool.get_save_blob_permit().unwrap();
    let digest = sha2::Sha256::digest(b"other").to_vec();
    let options = SaveBlobOptions::new().expected_hash(Some(ValidationHash::Sha256 {
        value: digest,
    }));
    match plan_save_blob_from_reader("/home", &permit, b"hello", &options) {
        Err(SaveFromReaderError::Mismatch) => {}
        _ => panic!("a mismatched expected hash must be rejected"),
    }
}

#[test]
fn save_blob_from_file_moves_exclusive_input() {
    let mut pool = permits();
    let permit = pool.get_save_blob_permit().unwrap();
    let options = SaveBlobOptions::new().remove_input(true);
    let plan =
        plan_save_blob_from_file("/home", &permit, b"hello", &options, false, 1).unwrap();
    assert!(matches!(plan.step, FileWriteStep::MoveInPlace));
}

#[test]
fn save_blob_from_file_copies_hardlinked_input() {
    let mut pool = permits();
    let permit = pool.get_save_blob_permit().unwrap();
    let options = SaveBlobOptions::new().remove_input(true);
    let plan =
        plan_save_blob_from_file("/home", &permit, b"hello", &options, false, 2).unwrap();
    assert!(matches!(
        plan.step,
        FileWriteStep::CopyIntoPlace { remove_input: true }
    ));
}

#[test]
fn save_blob_from_file_refreshes_existing() {
    let mut pool = permits();
    let permit = pool.get_save_blob_permit().unwrap();
    let plan = plan_save_blob_from_file("/home", &permit, b"hello", &SaveBlobOptions::new(), true, 1)
        .unwrap();
    assert!(matches!(
        plan.step,
        FileWriteStep::RefreshExisting { remove_input: false }
    ));
}

#[test]
fn blob_path_plans_fetch_when_absent() {
    let mut pool = permits();
    let permit = pool.get_save_blob_permit().unwrap();
    let h = BlobHash::for_content(b"hello");
    let expected = local_blob_path("/home", &h);
    match plan_blob_path("/home", &permit, &h, true) {
        BlobPathPlan::Local { path } => assert_eq!(path, expected),
        _ => panic!("present blob must be used locally"),
    }
    match plan_blob_path("/home", &permit, &h, false) {
        BlobPathPlan::Fetch { path } => assert_eq!(path, expected),
        _ => panic!("absent blob must be fetched"),
    }
}

#[test]
fn fetched_blob_is_checked_against_its_hash() {
    let h = BlobHash::for_content(b"hello");
    assert!(check_fetched_blob("/home", &h, b"hello").is_ok());
    assert!(check_fetched_blob("/home", &h, b"tampered").is_err());
}

#[test]
fn alias_row_parsing() {
    assert!(matches!(parse_blob_alias_row(None), Ok(None)));
    let h = BlobHash::for_content(b"hello");
    let hex_form = h.to_hex();
    match parse_blob_alias_row(Some(hex_form.as_bytes())) {
        Ok(Some(parsed)) => assert!(parsed.same_as(&h)),
        _ => panic!("valid hex row must parse"),
    }
    assert!(parse_blob_alias_row(Some(b"not hex")).is_err());
}

#[test]
fn permit_pool_is_bounded() {
    let mut pool = permits();
    let mut held = Vec::new();
    for _ in 0..MAX_CONCURRENT_BLOB_SAVES {
        held.push(pool.get_save_blob_permit().expect("pool must hand out its permits"));
    }
    assert!(pool.get_save_blob_permit().is_none());
    let permit = held.pop().unwrap();
    pool.release(permit);
    assert!(pool.get_save_blob_permit().is_some());
}

#[test]
fn temp_path_layout() {
    assert_eq!(local_temp_path("/home", "abc"), "/home/blobs-temp/abc");
}

#[test]
fn exclusivity_is_single_link() {
    assert!(is_file_exclusive(1));
    assert!(!is_file_exclusive(2));
}

#[test]
fn options_builder() {
    let options = SaveBlobOptions::new();
    assert!(options.expected_hash.is_none());
    assert!(!options.report_progress);
    assert!(!options.remove_input);
    let options = options.on_progress(true).remove_input(true);
    assert!(options.report_progress);
    assert!(options.remove_input);
}

#[test]
fn plans_carry_the_progress_request() {
    let mut pool = permits();
    let permit = pool.get_save_blob_permit().unwrap();
    let options = SaveBlobOptions::new().on_progress(true);
    let plan = plan_save_blob("/home", &permit, b"hello", &options, false).unwrap();
    assert!(plan.report_progress);
    let plan = plan_save_blob("/home", &permit, b"hello", &SaveBlobOptions::new(), false).unwrap();
    assert!(!plan.report_progress);
}
