use slpz::{
    is_target, target_mode, worker_slices, CompError, DecompError, Options, TargetPathError,
};

#[test]
fn options_default() {
    let o = Options::default();
    assert!(o.keep);
    assert_eq!(o.compress, None);
    assert!(!o.recursive);
    assert!(o.threading);
    assert_eq!(o.level, 3);
    assert!(o.log);
}

#[test]
fn target_extensions() {
    assert!(is_target(true, Some(b"slp".as_slice())));
    assert!(!is_target(true, Some(b"slpz".as_slice())));
    assert!(is_target(false, Some(b"slpz".as_slice())));
    assert!(!is_target(false, Some(b"slp".as_slice())));
    assert!(!is_target(true, Some(b"txt".as_slice())));
    assert!(!is_target(true, None));
}

#[test]
fn target_mode_decisions() {
    let slp = Some(b"slp".as_slice());
    let slpz = Some(b"slpz".as_slice());
    let other = Some(b"zip".as_slice());
    assert_eq!(target_mode(None, false, false, true, slp), Err(TargetPathError::PathNotFound));
    assert_eq!(target_mode(None, true, false, false, slp), Err(TargetPathError::PathInvalid));
    assert_eq!(
        target_mode(None, true, true, false, None),
        Err(TargetPathError::CompressOrDecompressAmbiguous)
    );
    assert_eq!(target_mode(Some(false), true, true, false, None), Ok(false));
    assert_eq!(target_mode(None, true, false, true, slp), Ok(true));
    assert_eq!(target_mode(None, true, false, true, slpz), Ok(false));
    assert_eq!(
        target_mode(None, true, false, true, other),
        Err(TargetPathError::CompressOrDecompressAmbiguous)
    );
    assert_eq!(target_mode(Some(true), true, false, true, slpz), Ok(true));
}

#[test]
fn worker_slices_share_targets() {
    assert_eq!(worker_slices(false, 100), vec![(0, 100)]);
    assert_eq!(worker_slices(true, 7), vec![(0, 7)]);
    assert_eq!(worker_slices(true, 0), vec![(0, 0)]);
    assert_eq!(
        worker_slices(true, 20),
        vec![(0, 3), (3, 6), (6, 9), (9, 12), (12, 14), (14, 16), (16, 18), (18, 20)]
    );
    assert_eq!(
        worker_slices(true, 8),
        vec![(0, 1), (1, 2), (2, 3), (3, 4), (4, 5), (5, 6), (6, 7), (7, 8)]
    );
}

#[test]
fn error_messages() {
    assert_eq!(CompError::InvalidFile.message(), "File is invalid");
    assert_eq!(CompError::CompressionFailure.message(), "Compression failed");
    assert_eq!(DecompError::DecompressionFailure.message(), "Decompression failed");
    assert_eq!(TargetPathError::CompressOrDecompressAmbiguous.message(), "Not a slp or slpz file");
}
