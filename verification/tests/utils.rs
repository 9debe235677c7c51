use tei_viewer::utils::{file_name, get_base_url, has_prefix, image_url, resource_url, trim};

#[test]
fn test_resource_url_formatting() {
    // With leading slash
    let url1 = resource_url("", "/public/projects/test.xml");
    assert!(url1.contains("public/projects/test.xml"));

    // Without leading slash
    let url2 = resource_url("", "public/projects/test.xml");
    assert!(url2.contains("public/projects/test.xml"));
}

#[test]
fn resource_url_without_base_is_rooted() {
    assert_eq!(resource_url("", "/public/projects/test.xml"), "/public/projects/test.xml");
    assert_eq!(resource_url("", "public/projects/test.xml"), "/public/projects/test.xml");
    assert_eq!(resource_url("", "///a/b"), "/a/b");
    assert_eq!(resource_url("", ""), "/");
    assert_eq!(resource_url("", "a//b/"), "/a//b/");
}

#[test]
fn resource_url_with_base_joins_with_one_slash() {
    assert_eq!(resource_url("/tei-viewer", "/public/x.xml"), "/tei-viewer/public/x.xml");
    assert_eq!(resource_url("/tei-viewer", "public/x.xml"), "/tei-viewer/public/x.xml");
    assert_eq!(resource_url("/tei-viewer", "//x"), "/tei-viewer/x");
}

#[test]
fn base_url_depends_on_the_served_path() {
    assert_eq!(get_base_url(Some("/tei-viewer/")), "/tei-viewer");
    assert_eq!(get_base_url(Some("/tei-viewer/index.html")), "/tei-viewer");
    assert_eq!(get_base_url(Some("/tei-viewer")), "");
    assert_eq!(get_base_url(Some("/")), "");
    assert_eq!(get_base_url(Some("")), "");
    assert_eq!(get_base_url(Some("/other/tei-viewer/")), "");
    assert_eq!(get_base_url(None), "");
}

#[test]
fn prefix_test_agrees_with_std() {
    let texts = ["", "a", "ab", "abc", "/tei-viewer/", "/tei-viewer", "\u{e9}t\u{e9}", "\u{e9}"];
    for text in texts {
        for prefix in texts {
            assert_eq!(has_prefix(text, prefix), text.starts_with(prefix), "{:?} {:?}", text, prefix);
        }
    }
}

#[test]
fn trim_removes_whitespace_at_both_ends() {
    let texts = ["", " ", "a", " a", "a ", "  a b  ", "\n\ta\u{a0}", "\u{3000}", "a  b", " \u{e9} "];
    for text in texts {
        assert_eq!(trim(text), text.trim(), "{:?}", text);
    }
    assert_eq!(trim("  p1.jpg \n"), "p1.jpg");
}

#[test]
fn file_name_is_the_part_after_the_last_slash() {
    let paths = ["", "a", "a/b", "a/b/", "/", "//", "/a", "images/p1.jpg", "http://x/y/z.png", "a/b/c d"];
    for path in paths {
        assert_eq!(file_name(path), path.rsplit('/').next().unwrap(), "{:?}", path);
    }
    assert_eq!(file_name("images/p1.jpg"), "p1.jpg");
    assert_eq!(file_name("a/b/"), "");
}

#[test]
fn image_url_follows_the_declared_location() {
    assert_eq!(image_url("", "PGM-XIII", 3, ""), "/public/projects/PGM-XIII/images/p3.jpg");
    assert_eq!(image_url("", "PGM-XIII", 3, "  \n"), "/public/projects/PGM-XIII/images/p3.jpg");
    assert_eq!(
        image_url("/tei-viewer", "PGM-XIII", 12, ""),
        "/tei-viewer/public/projects/PGM-XIII/images/p12.jpg"
    );
    assert_eq!(image_url("/b", "P", 1, "http://host/a.jpg"), "http://host/a.jpg");
    assert_eq!(image_url("/b", "P", 1, " https://host/a.jpg "), "https://host/a.jpg");
    assert_eq!(image_url("/b", "P", 1, "/abs/a.jpg"), "/abs/a.jpg");
    assert_eq!(image_url("/b", "P", 1, "public/projects/P/images/a.jpg"), "/public/projects/P/images/a.jpg");
    assert_eq!(image_url("/b", "P", 1, "a.jpg"), "/b/public/projects/P/images/a.jpg");
    assert_eq!(image_url("", "P", 1, "scans/a.jpg"), "/public/projects/P/images/a.jpg");
    assert_eq!(image_url("", "P", 1, "scans/"), "/public/projects/P/images/");
    assert_eq!(image_url("", "P", 1, " a.jpg "), "/public/projects/P/images/ a.jpg ");
    assert_eq!(image_url("", "P", 1, "httpx://a/b"), "/public/projects/P/images/b");
}
