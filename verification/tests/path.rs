use pkgar::path::{first_fault, DOT, SEPARATOR};

#[test]
fn separator_and_dot() {
    assert_eq!(SEPARATOR, b'/');
    assert_eq!(DOT, b'.');
}

#[test]
fn plain_names_have_no_fault() {
    assert_eq!(first_fault(b"a"), None);
    assert_eq!(first_fault(b"a/b.txt"), None);
    assert_eq!(first_fault(b".hidden/..."), None);
    assert_eq!(first_fault(b"a.b/c..d/..e"), None);
}

#[test]
fn fault_is_located() {
    assert_eq!(first_fault(b""), Some((0, 0)));
    assert_eq!(first_fault(b"/a"), Some((0, 0)));
    assert_eq!(first_fault(b"a/"), Some((2, 2)));
    assert_eq!(first_fault(b"a//b"), Some((2, 2)));
    assert_eq!(first_fault(b"ab/../c"), Some((3, 5)));
    assert_eq!(first_fault(b"ab/./c"), Some((3, 4)));
    assert_eq!(first_fault(b".."), Some((0, 2)));
}

#[test]
fn first_of_several_faults_is_reported() {
    assert_eq!(first_fault(b"a/./../"), Some((2, 3)));
    assert_eq!(first_fault(b"x/../."), Some((2, 4)));
}
