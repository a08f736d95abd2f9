use alquitran::header::normalize;
use alquitran::header::to_path;

#[test]
fn test_normalize() {
    assert_eq!(b"test".to_vec(), normalize(b"./test".to_vec()));
    assert_eq!(b"test/".to_vec(), normalize(b".///test/./".to_vec()));
    assert_eq!(b"test".to_vec(), normalize(b"././test/.".to_vec()));
    assert_eq!(b"/test".to_vec(), normalize(b"////////test".to_vec()));
    assert_eq!(b".".to_vec(), normalize(b".".to_vec()));
    assert_eq!(b"./".to_vec(), normalize(b"./".to_vec()));
    assert_eq!(b"./".to_vec(), normalize(b".//".to_vec()));
}

#[test]
fn test_to_path() {
    assert_eq!(b"".to_vec(), to_path(None, None));
    assert_eq!(b"".to_vec(), to_path(Some(b"".to_vec()), Some(b"".to_vec())));
    assert_eq!(
        b"file".to_vec(),
        to_path(Some(b"".to_vec()), Some(b"file".to_vec()))
    );
    assert_eq!(
        b"directory/file".to_vec(),
        to_path(Some(b"directory".to_vec()), Some(b"file".to_vec()))
    );
    assert_eq!(b"directory".to_vec(), to_path(Some(b"directory".to_vec()), None));
}

#[test]
fn normalize_is_idempotent_on_common_paths() {
    for p in [
        b"a//b/".to_vec(),
        b"./x/./y/".to_vec(),
        b"////".to_vec(),
        b"dir/sub/..".to_vec(),
        b"".to_vec(),
    ] {
        let once = normalize(p);
        let twice = normalize(once.clone());
        assert_eq!(once, twice);
    }
}

#[test]
fn normalize_replaces_dot_segments_in_one_pass() {
    // the single left-to-right pass leaves the overlapping second `/./`
    assert_eq!(b"a/./b".to_vec(), normalize(b"a/././b".to_vec()));
}
