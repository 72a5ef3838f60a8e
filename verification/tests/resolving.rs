use crawler::resolver::resolve;
use crawler::resolver::ResolutionError;

#[test]
fn multi_level_relative_path_resolves() {
    let r = resolve("https://x.test/a/d/e.html", "../b/c.html").unwrap();
    assert_eq!(r, "https://x.test/a/b/c.html");
}

#[test]
fn absolute_href_is_returned_unchanged() {
    let r = resolve("https://a.test", "https://b.test/y").unwrap();
    assert_eq!(r, "https://b.test/y");
}

#[test]
fn absolute_href_is_normalized() {
    let r = resolve("https://a.test", "https://b.test/a/./b/../c").unwrap();
    assert_eq!(r, "https://b.test/a/c");
}

#[test]
fn empty_href_is_rejected() {
    assert_eq!(resolve("https://a.test", ""), Err(ResolutionError::EmptyHref));
}

#[test]
fn relative_href_against_invalid_base_is_rejected() {
    assert_eq!(resolve("not a url", "x/y"), Err(ResolutionError::NotAbsolute));
}

#[test]
fn host_relative_href_resolves() {
    let r = resolve("https://a.test/deep/path", "/x").unwrap();
    assert_eq!(r, "https://a.test/x");
}

#[test]
fn scheme_relative_href_takes_base_scheme() {
    let r = resolve("https://a.test/p", "//other.test/q").unwrap();
    assert_eq!(r, "https://other.test/q");
}

#[test]
fn sibling_relative_href_resolves() {
    let r = resolve("https://a.test/dir/page.html", "other.html").unwrap();
    assert_eq!(r, "https://a.test/dir/other.html");
}

#[test]
fn query_and_fragment_are_kept() {
    let r = resolve("https://x.test/a/b", "c?q=1#frag").unwrap();
    assert_eq!(r, "https://x.test/a/c?q=1#frag");
}

#[test]
fn dot_segment_prefix_resolves() {
    let r = resolve("https://x.test/a/b", "./c").unwrap();
    assert_eq!(r, "https://x.test/a/c");
}

#[test]
fn empty_relative_reference_keeps_base_path() {
    let r = resolve("https://x.test/a/b?old", "#frag").unwrap();
    assert_eq!(r, "https://x.test/a/b?old#frag");
}

#[test]
fn href_with_space_is_rejected() {
    assert_eq!(
        resolve("https://a.test/p", "bad path.html"),
        Err(ResolutionError::ForbiddenCharacter)
    );
    assert_eq!(
        resolve("https://a.test/p", "https://b.test/a b"),
        Err(ResolutionError::ForbiddenCharacter)
    );
}

#[test]
fn href_with_control_character_is_rejected() {
    assert_eq!(
        resolve("https://a.test/p", "x\ny.html"),
        Err(ResolutionError::ForbiddenCharacter)
    );
}
