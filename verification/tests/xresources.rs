use regolith_configure::config::xresources::{
    set_xresource_value, XresourceConfig, XresourceLoader, XresourceRequest,
};

/// Runs the resource loader against files held in memory; a path is its
/// own canonical form, and a missing file fails as a failed read would.
fn load_xresources_in_memory(files: &[(&str, &str)], root: &str) -> Result<XresourceConfig, String> {
    let mut loader = XresourceLoader::new(root);
    loop {
        match loader.request() {
            XresourceRequest::Canonicalize(p) => {
                if files.iter().any(|(f, _)| *f == p) {
                    loader.canonicalized(&p);
                } else {
                    return Err(format!("Failed to canonicalize path: {:?}", p));
                }
            }
            XresourceRequest::Read(p) => {
                let content = files
                    .iter()
                    .find(|(f, _)| *f == p)
                    .map(|(_, c)| *c)
                    .ok_or(format!("Failed to open file: {:?}", p))?;
                loader.file_read(content).map_err(|e| format!("{:?}", e))?;
            }
            XresourceRequest::Done => return Ok(loader.finish()),
        }
    }
}

#[test]
fn new_parses_key_value_pairs_and_skips_invalid_lines() {
    let files = [(
        "/tmp/xr/Xresources",
        "! comment\n\nregolithwm.border.width: 2\n\nregolithwm.font.size: 12\n",
    )];
    let config = load_xresources_in_memory(&files, "/tmp/xr/Xresources").unwrap();
    let entries = config.get_all_entries();

    assert_eq!(entries.len(), 2);
    assert_eq!(entries[0].key, "regolithwm.border.width");
    assert_eq!(entries[0].value, "2");
    assert_eq!(entries[1].key, "regolithwm.font.size");
    assert_eq!(entries[1].value, "12");
}

#[test]
fn new_follows_include_directives() {
    let files = [
        ("/tmp/xr/extra.xr", "regolithwm.font.size: 14\n"),
        ("/tmp/xr/Xresources", "regolithwm.border.width: 2\n#include extra.xr\n"),
    ];
    let config = load_xresources_in_memory(&files, "/tmp/xr/Xresources").unwrap();
    let entries = config.get_all_entries();

    assert_eq!(entries.len(), 2);
    assert_eq!(entries[0].key, "regolithwm.border.width");
    assert_eq!(entries[1].key, "regolithwm.font.size");
}

#[test]
fn new_follows_nested_and_quoted_includes() {
    let files = [
        ("/tmp/xr/level2.xr", "regolithwm.gamma: 1.0\n"),
        ("/tmp/xr/level1.xr", "regolithwm.font.size: 12\n#include level2.xr\n"),
        (
            "/tmp/xr/Xresources",
            "regolithwm.border.width: 2\n#include level1.xr\n#include \"level2.xr\"\n",
        ),
    ];
    let config = load_xresources_in_memory(&files, "/tmp/xr/Xresources").unwrap();
    // level2.xr is included twice but duplicate is skipped
    assert_eq!(config.get_all_entries().len(), 3);
}

#[test]
fn new_returns_error_for_nonexistent_file() {
    let files: [(&str, &str); 0] = [];
    let result = load_xresources_in_memory(&files, "/nonexistent/path/Xresources");
    assert!(result.is_err());
}

#[test]
fn new_records_file_path_and_line_number() {
    let path = "/tmp/xr/Xresources";
    let files = [(path, "! comment\nregolithwm.border.width: 2\n")];
    let config = load_xresources_in_memory(&files, path).unwrap();
    let entry = &config.get_all_entries()[0];

    assert_eq!(entry.file_path, path);
    assert_eq!(entry.line_number, 2);
}

#[test]
fn get_entry_finds_existing_key() {
    let files = [(
        "/tmp/xr/Xresources",
        "regolithwm.border.width: 2\nregolithwm.font.size: 12\n",
    )];
    let config = load_xresources_in_memory(&files, "/tmp/xr/Xresources").unwrap();
    let entry = config.get_entry("regolithwm.font.size").unwrap();

    assert_eq!(entry.value, "12");
}

#[test]
fn get_entry_returns_none_for_missing_or_empty_key() {
    let files = [("/tmp/xr/Xresources", "regolithwm.border.width: 2\n")];
    let config = load_xresources_in_memory(&files, "/tmp/xr/Xresources").unwrap();
    assert!(config.get_entry("nonexistent.key").is_none());
    assert!(config.get_entry("").is_none());
}

#[test]
fn get_entry_is_case_sensitive() {
    let files = [("/tmp/xr/Xresources", "regolithwm.border.width: 2\n")];
    let config = load_xresources_in_memory(&files, "/tmp/xr/Xresources").unwrap();
    assert!(config.get_entry("Regolithwm.border.width").is_none());
    assert!(config.get_entry("regolithwm.border.width").is_some());
}

/// Sets a key in a file's text the way setting a user resource does, the
/// file starting out absent (empty).
fn set_and_read(content: &str, key: &str, value: &str) -> String {
    set_xresource_value(content, key, value)
}

#[test]
fn set_resource_set_user_xresource_creates_and_updates() {
    // Creates new file with a key
    let content = set_and_read("", "test.key", "test_value");
    assert!(content.contains("test.key: test_value"));

    // Appends another key
    let content2 = set_and_read(&content, "new.key", "new_value");
    assert!(content2.contains("test.key: test_value"));
    assert!(content2.contains("new.key: new_value"));

    // Updates existing key
    let content3 = set_and_read(&content2, "test.key", "updated_value");
    assert!(content3.contains("test.key: updated_value"));
    assert!(content3.contains("new.key: new_value"));
}

#[test]
fn xresources_set_user_xresource_creates_and_updates() {
    let content = set_xresource_value("", "test.key", "test_value");
    assert!(content.contains("test.key: test_value"));

    let content2 = set_xresource_value(&content, "new.key", "new_value");
    assert!(content2.contains("test.key: test_value"));
    assert!(content2.contains("new.key: new_value"));

    let content3 = set_xresource_value(&content2, "test.key", "updated_value");
    assert!(content3.contains("test.key: updated_value"));
    assert!(content3.contains("new.key: new_value"));
}

#[test]
fn set_xresource_value_exact_text() {
    assert_eq!(set_xresource_value("", "a.b", "1"), "a.b: 1");
    // A blank separating line goes before an appended key.
    assert_eq!(set_xresource_value("x: 1", "y", "2"), "x: 1\n\ny: 2");
    // No extra blank line after a blank last line.
    assert_eq!(set_xresource_value("x: 1\n\n", "y", "2"), "x: 1\n\ny: 2");
    // The first matching key is replaced, matched without case.
    assert_eq!(
        set_xresource_value("! c\nA.B: 1\na.b: 2\n", "a.b", "3"),
        "! c\na.b: 3\na.b: 2"
    );
    // Comments and includes are never replaced.
    assert_eq!(
        set_xresource_value("! a.b: 1\n#include a.b: 2", "a.b", "3"),
        "! a.b: 1\n#include a.b: 2\n\na.b: 3"
    );
}

#[test]
fn set_then_get_reads_back_the_value() {
    let path = "/tmp/xr/Xresources";
    let first = set_xresource_value("! header\nother.key: 5\nTest.Key: old\n", "test.key", "new");
    let files = [(path, first.as_str())];
    let config = load_xresources_in_memory(&files, path).unwrap();
    assert_eq!(config.get_entry("test.key").unwrap().value, "new");
    assert_eq!(config.get_entry("other.key").unwrap().value, "5");
}

#[test]
fn loader_reports_missing_parent_directory() {
    let mut loader = XresourceLoader::new("/");
    match loader.request() {
        XresourceRequest::Canonicalize(p) => loader.canonicalized(&p),
        other => panic!("unexpected request {:?}", other),
    }
    match loader.request() {
        XresourceRequest::Read(_) => assert!(loader.file_read("a: 1").is_err()),
        other => panic!("unexpected request {:?}", other),
    }
}

#[test]
fn entries_split_at_first_colon_and_trim() {
    let files = [("/tmp/xr/Xresources", "  key.a :  x:y  \r\nno colon here\n#define k: v\n")];
    let config = load_xresources_in_memory(&files, "/tmp/xr/Xresources").unwrap();
    let entries = config.get_all_entries();
    assert_eq!(entries.len(), 2);
    assert_eq!(entries[0].key, "key.a");
    assert_eq!(entries[0].value, "x:y");
    assert_eq!(entries[1].key, "#define k");
    assert_eq!(entries[1].value, "v");
    assert_eq!(entries[1].line_number, 3);
}

#[test]
fn setting_the_same_value_twice_changes_nothing() {
    let once = set_xresource_value("! header\nother.key: 5\nTest.Key: old", "test.key", "new");
    let twice = set_xresource_value(&once, "test.key", "new");
    assert_eq!(once, "! header\nother.key: 5\ntest.key: new");
    assert_eq!(twice, once);
    let appended = set_xresource_value("a: 1", "b", "2");
    assert_eq!(appended, "a: 1\n\nb: 2");
    assert_eq!(set_xresource_value(&appended, "b", "2"), appended);
}

#[test]
fn setting_an_untrimmed_value_twice_changes_nothing() {
    let once = set_xresource_value("a: 1\nb:  old", "b", "  spaced value  ");
    assert_eq!(once, "a: 1\nb:   spaced value  ");
    assert_eq!(set_xresource_value(&once, "b", "  spaced value  "), once);
}
