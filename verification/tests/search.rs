use regolith_configure::cli_args::FilterType;
use regolith_configure::config::full::ConfigLoader;
use regolith_configure::config::xresources::{XresourceLoader, XresourceRequest};
use regolith_configure::resources::{parse_xrdb_output, ResourceError, ResourceProvider};
use regolith_configure::search::bindings::search_binding_result;
use regolith_configure::search::keyword::search_keyword_result;
use regolith_configure::search::resource::{collect_similar_resources, search_resource_result, ResourceSearchResult};
use regolith_configure::string_map::StringMap;
use regolith_configure::{execute_search, FullConfig, SearchResult};

const ROOT_PATH: &str = "/fixture/sway/config";

/// Sample root config content for basic testing.
const SAMPLE_ROOT_CONFIG: &str = "\nset $mod Super\nset $alt Alt\ninclude bindings.conf\ninclude more_bindings.conf\n";

/// Sample bindings config content for testing.
const SAMPLE_BINDINGS_CONFIG: &str =
    "\nbindsym $mod+Enter exec terminal\nbindsym $mod+Shift+Q kill\nbindsym $mod+D exec dmenu_run\n";

/// Sample additional bindings config content for testing.
const SAMPLE_MORE_BINDINGS_CONFIG: &str =
    "\nbindsym $mod+H split h\nbindsym $mod+V split v\nbindsym $mod+F fullscreen toggle\n";

/// A resource provider that hands out a fixed set of resources.
struct MockResourceProvider {
    resources: Vec<(String, String)>,
}

impl MockResourceProvider {
    fn new(resources: Vec<(&str, &str)>) -> Self {
        MockResourceProvider {
            resources: resources.into_iter().map(|(k, v)| (k.to_string(), v.to_string())).collect(),
        }
    }
}

impl Default for MockResourceProvider {
    fn default() -> Self {
        MockResourceProvider::new(vec![])
    }
}

impl ResourceProvider for MockResourceProvider {
    fn get_all_resources(&self) -> Result<StringMap, ResourceError> {
        let mut m = StringMap::new();
        for (k, v) in &self.resources {
            m.insert(k.clone(), v.clone());
        }
        Ok(m)
    }
}

/// A provider whose display system cannot be reached.
struct FailingProvider;

impl ResourceProvider for FailingProvider {
    fn get_all_resources(&self) -> Result<StringMap, ResourceError> {
        Err(ResourceError { message: "unavailable".to_string() })
    }
}

fn mock_resources() -> StringMap {
    MockResourceProvider::new(vec![
        ("mod", "Super"),
        ("alt", "Alt"),
        ("regolithwm.border.width", "2"),
        ("regolithwm.font.size", "12"),
    ])
    .get_all_resources()
    .unwrap()
}

/// A configuration whose root file is `ROOT_PATH` with the given contents
/// and whose other files sit beside it; includes name files exactly.
fn create_test_full_config(root_content: &str, included: &[(&str, &str)]) -> FullConfig {
    let files: Vec<(String, String)> = included
        .iter()
        .map(|(name, content)| (format!("/fixture/sway/{}", name), content.to_string()))
        .collect();
    let mut loader = ConfigLoader::new(ROOT_PATH, root_content);
    while !loader.is_done() {
        let patterns = loader.pending_patterns().expect("Failed to create FullConfig");
        let matched: Vec<String> =
            patterns.into_iter().filter(|p| files.iter().any(|(f, _)| f == p)).collect();
        let read: Vec<(String, String)> = loader
            .paths_to_read(&matched)
            .into_iter()
            .map(|p| {
                let content = files.iter().find(|(f, _)| *f == p).unwrap().1.clone();
                (p, content)
            })
            .collect();
        loader.add_imports(read);
    }
    loader.finish()
}

fn resource_search(query: &str, config: &FullConfig, provider: &dyn ResourceProvider) -> ResourceSearchResult {
    let runtime = provider.get_all_resources().unwrap_or_else(|_| StringMap::new());
    search_resource_result(query, config, &runtime, None)
}

// ---------------------------------------------------------------------
// search_binding_result
// ---------------------------------------------------------------------

#[test]
fn test_search_binding_result_exact_match() {
    let full_config = create_test_full_config(
        "set $mod Super\ninclude bindings.conf",
        &[("bindings.conf", "bindsym $mod+Enter exec terminal")],
    );
    let resources = mock_resources();
    let result = search_binding_result("Super+Enter", &full_config, &resources);
    assert!(!result.0.is_empty());
    assert!(result.0.iter().any(|b| b.line_contents.contains("exec terminal")));
}

#[test]
fn test_search_binding_result_substring_and_case_insensitive() {
    let full_config = create_test_full_config(
        "set $mod Super\ninclude bindings.conf",
        &[("bindings.conf", "bindsym $mod+Shift+Q kill")],
    );
    let resources = mock_resources();
    let result_sub = search_binding_result("Shift", &full_config, &resources);
    assert!(!result_sub.0.is_empty());

    let full_config_ci = create_test_full_config(
        "set $mod Super\ninclude bindings.conf",
        &[("bindings.conf", "bindsym $mod+return exec terminal")],
    );
    let result_ci = search_binding_result("super+return", &full_config_ci, &resources);
    assert!(!result_ci.0.is_empty());
}

#[test]
fn test_search_binding_result_multiple_config_files() {
    let full_config = create_test_full_config(
        "set $mod Super\ninclude bindings.conf\ninclude more_bindings.conf",
        &[
            ("bindings.conf", "bindsym $mod+Enter exec terminal"),
            ("more_bindings.conf", "bindsym $mod+D exec dmenu_run"),
        ],
    );
    let resources = mock_resources();
    let result = search_binding_result("Super+D", &full_config, &resources);
    assert!(!result.0.is_empty());
    assert!(result.0.iter().any(|b| b.line_contents.contains("dmenu_run")));
}

#[test]
fn test_search_binding_result_variable_resolution() {
    let full_config = create_test_full_config(
        "set $mod Super\nset $alt Alt\ninclude bindings.conf",
        &[("bindings.conf", "bindsym $mod+$alt+F fullscreen toggle")],
    );
    let resources = mock_resources();
    let result = search_binding_result("Super+Alt+F", &full_config, &resources);
    assert!(!result.0.is_empty());
}

#[test]
fn test_search_binding_result_no_matches() {
    let full_config = create_test_full_config(
        "set $mod Super\ninclude bindings.conf",
        &[("bindings.conf", "bindsym $mod+Enter exec terminal")],
    );
    let resources = mock_resources();
    let result = search_binding_result("Control+Delete", &full_config, &resources);
    assert!(result.0.is_empty());
}

#[test]
fn test_search_binding_result_multiple_matches() {
    let full_config = create_test_full_config(
        "set $mod Super\ninclude bindings.conf",
        &[("bindings.conf", "bindsym $mod+Enter exec terminal\nbindsym $mod+Shift+Enter exec alt-terminal")],
    );
    let resources = mock_resources();
    let result = search_binding_result("Super", &full_config, &resources);
    assert!(result.0.len() >= 2);
}

#[test]
fn test_search_binding_result_from_trawl_resources() {
    let full_config = create_test_full_config(
        "set_from_resource $mod mod Super\ninclude bindings.conf",
        &[("bindings.conf", "bindsym $mod+Enter exec terminal")],
    );
    let resources = mock_resources();
    let result = search_binding_result("Super+Enter", &full_config, &resources);
    assert!(!result.0.is_empty());
}

#[test]
fn search_binding_keys_agree_as_far_as_both_go() {
    let full_config = create_test_full_config("set $mod Super\nbindsym $mod+Shift+Q kill\nbindsym $mod+Q close", &[]);
    let resources = StringMap::new();
    let longer_query = search_binding_result("super+shift+q+x", &full_config, &resources);
    assert_eq!(longer_query.0.len(), 1);
    assert_eq!(longer_query.0[0].line_no, 2);
    let prefix = search_binding_result("SUPER", &full_config, &resources);
    assert_eq!(prefix.0.len(), 2);
    let written = search_binding_result("$mod+Q", &full_config, &resources);
    assert_eq!(written.0.len(), 1);
    assert_eq!(written.0[0].line_no, 3);
}

#[test]
fn bindings_display_lists_file_and_line() {
    let full_config = create_test_full_config(
        "set $mod Super\ninclude bindings.conf",
        &[("bindings.conf", "bindsym $mod+Enter exec terminal\nbindsym $mod+D exec dmenu_run")],
    );
    let result = search_binding_result("super", &full_config, &StringMap::new());
    assert_eq!(
        result.to_display_string(),
        "/fixture/sway/bindings.conf - Line 1:\n\tbindsym $mod+Enter exec terminal\n/fixture/sway/bindings.conf - Line 2:\n\tbindsym $mod+D exec dmenu_run"
    );
}

// ---------------------------------------------------------------------
// Loading
// ---------------------------------------------------------------------

#[test]
fn test_new_from_session_with_sample_configs() {
    let full_config = create_test_full_config(
        SAMPLE_ROOT_CONFIG,
        &[("bindings.conf", SAMPLE_BINDINGS_CONFIG), ("more_bindings.conf", SAMPLE_MORE_BINDINGS_CONFIG)],
    );
    assert!(full_config.partials.len() >= 3);
}

// ---------------------------------------------------------------------
// search_keyword_result
// ---------------------------------------------------------------------

#[test]
fn test_search_keyword_single_line_match() {
    let full_config = create_test_full_config("set $mod Super\nbindsym $mod+Enter exec terminal", &[]);
    let result = search_keyword_result("terminal", &full_config);
    assert_eq!(result.0.len(), 1);
    assert_eq!(result.0[0].line_number, 2);
    assert_eq!(result.0[0].line_contents, "bindsym $mod+Enter exec terminal");
}

#[test]
fn test_search_keyword_multiple_lines_same_file() {
    let full_config = create_test_full_config(
        "include bindings.conf",
        &[(
            "bindings.conf",
            "bindsym $mod+Enter exec terminal\nbindsym $mod+D exec dmenu_run\nbindsym $mod+Shift+Enter exec alt-terminal",
        )],
    );
    let result = search_keyword_result("terminal", &full_config);
    assert_eq!(result.0.len(), 2);
    assert_eq!(result.0[0].line_number, 1);
    assert_eq!(result.0[1].line_number, 3);
}

#[test]
fn test_search_keyword_across_multiple_config_files() {
    let full_config = create_test_full_config(
        "include bindings.conf\ninclude more_bindings.conf",
        &[
            ("bindings.conf", "bindsym $mod+Enter exec terminal"),
            ("more_bindings.conf", "bindsym $mod+D exec dmenu_run"),
        ],
    );
    let result = search_keyword_result("exec", &full_config);
    assert_eq!(result.0.len(), 2);
    let paths: Vec<&str> = result.0.iter().map(|d| d.file_path.rsplit('/').next().unwrap()).collect();
    assert!(paths.contains(&"bindings.conf"));
    assert!(paths.contains(&"more_bindings.conf"));
}

#[test]
fn test_search_keyword_case_insensitive() {
    let full_config = create_test_full_config("bindsym $mod+Enter exec TERMINAL\nbindsym $mod+D exec dmenu_run", &[]);
    let result_upper = search_keyword_result("TERMINAL", &full_config);
    let result_lower = search_keyword_result("terminal", &full_config);
    let result_mixed = search_keyword_result("TeRmInAl", &full_config);
    assert_eq!(result_upper.0.len(), 1);
    assert_eq!(result_lower.0.len(), 1);
    assert_eq!(result_mixed.0.len(), 1);
}

#[test]
fn test_search_keyword_no_matches() {
    let full_config = create_test_full_config("set $mod Super\nbindsym $mod+Enter exec terminal", &[]);
    let result = search_keyword_result("nonexistent", &full_config);
    assert!(result.0.is_empty());
}

#[test]
fn test_search_keyword_line_number_and_file_path() {
    let full_config = create_test_full_config(
        "set $mod Super\nbindsym $mod+Enter exec terminal\nbindsym $mod+D exec dmenu_run",
        &[],
    );
    let result = search_keyword_result("dmenu_run", &full_config);
    assert_eq!(result.0.len(), 1);
    assert_eq!(result.0[0].line_number, 3);

    let full_config2 =
        create_test_full_config("include bindings.conf", &[("bindings.conf", "bindsym $mod+Enter exec terminal")]);
    let result2 = search_keyword_result("terminal", &full_config2);
    assert_eq!(result2.0.len(), 1);
    assert!(result2.0[0].file_path.ends_with("bindings.conf"));
}

#[test]
fn keyword_display_lists_file_and_line() {
    let full_config = create_test_full_config("set $mod Super\nbindsym $mod+Enter exec terminal", &[]);
    let result = search_keyword_result("TERMINAL", &full_config);
    assert_eq!(result.to_display_string(), "/fixture/sway/config - Line 2:\n\tbindsym $mod+Enter exec terminal");
    let none = search_keyword_result("nothing", &full_config);
    assert_eq!(none.to_display_string(), "");
}

#[test]
fn keyword_search_is_the_same_in_any_case() {
    let full_config = create_test_full_config("bindsym $mod+Enter exec Terminal", &[]);
    let a = search_keyword_result("terminal", &full_config);
    let b = search_keyword_result("TERMINAL", &full_config);
    assert_eq!(a.to_display_string(), b.to_display_string());
    assert_eq!(a.0.len(), 1);
}

// ---------------------------------------------------------------------
// search_resource_result
// ---------------------------------------------------------------------

#[test]
fn test_search_resource_exact_match() {
    let full_config = create_test_full_config("set_from_resource $border regolithwm.border.width 3", &[]);
    let provider = MockResourceProvider::default();
    let result = resource_search("regolithwm.border.width", &full_config, &provider);
    assert!(result.has_exact_match);
    assert_eq!(result.resource_name, "regolithwm.border.width");
    assert_eq!(result.default_value, Some("3".to_string()));
    assert!(result.usages.len() >= 1);
}

#[test]
fn test_search_resource_runtime_value() {
    let full_config = create_test_full_config("set_from_resource $border regolithwm.border.width 3", &[]);
    let provider = MockResourceProvider::new(vec![("regolithwm.border.width", "5")]);
    let result = resource_search("regolithwm.border.width", &full_config, &provider);
    assert!(result.has_exact_match);
    assert_eq!(result.runtime_value, Some("5".to_string()));
    assert_eq!(result.default_value, Some("3".to_string()));
}

#[test]
fn test_search_resource_substring_and_fuzzy_match() {
    let full_config = create_test_full_config(
        "set_from_resource $border regolithwm.border.width 3\nset_from_resource $font regolithwm.font.size 12",
        &[],
    );
    let provider = MockResourceProvider::default();

    let result_sub = resource_search("regolithwm.border", &full_config, &provider);
    assert!(!result_sub.has_exact_match);
    assert!(result_sub.matched_resources.iter().any(|r| r == "regolithwm.border.width"));

    let result_fuzzy = resource_search("regolithwm.border.heigth", &full_config, &provider);
    assert!(!result_fuzzy.has_exact_match);
    assert!(result_fuzzy.similar_resources.iter().any(|r| r == "regolithwm.border.width"));
}

#[test]
fn test_search_resource_no_matches() {
    let full_config = create_test_full_config("set_from_resource $border regolithwm.border.width 3", &[]);
    let provider = MockResourceProvider::default();
    let result = resource_search("nonexistent.resource", &full_config, &provider);
    assert!(!result.has_exact_match);
    assert!(result.runtime_value.is_none());
    assert!(result.default_value.is_none());
    assert!(result.matched_resources.is_empty());
    assert!(result.usages.is_empty());
}

#[test]
fn test_search_resource_case_insensitive() {
    let full_config = create_test_full_config("set_from_resource $border regolithwm.border.width 3", &[]);
    let provider = MockResourceProvider::default();
    let result = resource_search("RegolithWM.Border.Width", &full_config, &provider);
    assert!(result.has_exact_match);
    assert_eq!(result.default_value, Some("3".to_string()));
}

#[test]
fn test_search_resource_multiple_usages() {
    let full_config = create_test_full_config(
        "set_from_resource $border regolithwm.border.width 3\ninclude more.conf",
        &[("more.conf", "set_from_resource $border_alt regolithwm.border.width 2")],
    );
    let provider = MockResourceProvider::default();
    let result = resource_search("regolithwm.border.width", &full_config, &provider);
    assert!(result.has_exact_match);
    assert!(result.usages.len() >= 2);
}

#[test]
fn test_search_resource_special_characters_and_runtime_only() {
    let full_config =
        create_test_full_config("set_from_resource $font regolithwm.font.name \"Source Code Pro\"", &[]);
    let provider = MockResourceProvider::default();
    let result = resource_search("regolithwm.font.name", &full_config, &provider);
    assert!(result.has_exact_match);
    assert_eq!(result.default_value, Some("\"Source Code Pro\"".to_string()));

    let full_config2 = create_test_full_config("set $mod Super", &[]);
    let provider2 = MockResourceProvider::new(vec![("regolithwm.border.width", "2")]);
    let result2 = resource_search("regolithwm.border.width", &full_config2, &provider2);
    assert!(result2.has_exact_match);
    assert_eq!(result2.runtime_value, Some("2".to_string()));
    assert!(result2.default_value.is_none());
}

#[test]
fn resource_usages_follow_the_variable() {
    let full_config = create_test_full_config(
        "set_from_resource $border regolithwm.border.width 3\ndefault_border pixel $border\nset $other 1",
        &[],
    );
    let result = resource_search("regolithwm.border.width", &full_config, &MockResourceProvider::default());
    let lines: Vec<usize> = result.usages.iter().map(|u| u.line_number).collect();
    assert_eq!(lines, vec![1, 2]);
    assert_eq!(result.usages[1].line_contents, "default_border pixel $border");
    assert_eq!(result.usages[1].file_path, ROOT_PATH);
}

#[test]
fn similar_resources_are_limited_and_exclude_the_query() {
    let mut lines = String::new();
    for c in ['a', 'b', 'c', 'd', 'e', 'f', 'g'] {
        lines.push_str(&format!("set_from_resource $v{} wm.size{} 1\n", c, c));
    }
    let full_config = create_test_full_config(&lines, &[]);
    let result = resource_search("wm.sizea", &full_config, &MockResourceProvider::default());
    assert!(result.has_exact_match);
    assert_eq!(result.similar_resources.len(), 5);
    assert!(!result.similar_resources.iter().any(|r| r == "wm.sizea"));
    assert_eq!(result.similar_resources, vec!["wm.sizeb", "wm.sizec", "wm.sized", "wm.sizee", "wm.sizef"]);
}

#[test]
fn similar_resources_use_edit_distance() {
    let full_config = create_test_full_config(
        "set_from_resource $a abc 1\nset_from_resource $b abd 1\nset_from_resource $c something.far.away 1",
        &[],
    );
    let result = resource_search("abx", &full_config, &MockResourceProvider::default());
    assert!(!result.has_exact_match);
    assert_eq!(result.similar_resources, vec!["abc", "abd"]);
}

#[test]
fn resource_display_shows_values_and_override_hint() {
    let full_config = create_test_full_config("set_from_resource $border regolithwm.border.width 3", &[]);
    let result = resource_search("regolithwm.border.width", &full_config, &MockResourceProvider::default());
    let text = result.to_display_string();
    let expected = "Resource Query: regolithwm.border.width\n\nMatched Resources:\n  - regolithwm.border.width\n\nRuntime Value: Not found\nDefault Value: 3 (In use)\nCustom Override: Not found\n\nRelated Configuration Lines:\n/fixture/sway/config - Line 1\n    set_from_resource $border regolithwm.border.width 3\n\nTo override this resource, run the following command:\nregolith-configure set-resource regolithwm.border.width \"<custom_value>\"\n";
    assert_eq!(text, expected);
}

#[test]
fn resource_search_reads_user_overrides() {
    let mut loader = XresourceLoader::new("/home/u/.config/regolith3/Xresources");
    loop {
        match loader.request() {
            XresourceRequest::Canonicalize(p) => loader.canonicalized(&p),
            XresourceRequest::Read(_) => loader.file_read("regolithwm.border.width: 7\n").unwrap(),
            XresourceRequest::Done => break,
        }
    }
    let user = loader.finish();
    let full_config = create_test_full_config("set_from_resource $border regolithwm.border.width 3", &[]);
    let result = search_resource_result("regolithwm.border.width", &full_config, &StringMap::new(), Some(&user));
    assert_eq!(result.overrides.len(), 1);
    assert_eq!(result.overrides[0].value, "7");
    assert_eq!(result.overrides[0].line_number, 1);
    assert_eq!(result.overrides[0].file_path, "/home/u/.config/regolith3/Xresources");
}

// ---------------------------------------------------------------------
// execute_search and runtime resources
// ---------------------------------------------------------------------

#[test]
fn execute_search_follows_the_filter() {
    let full_config = create_test_full_config("set $mod Super\nbindsym $mod+Enter exec terminal", &[]);
    let rt = mock_resources();
    match execute_search(FilterType::Binding, "super+enter", &full_config, Some(&rt), None) {
        Some(SearchResult::Bindings(b)) => assert_eq!(b.0.len(), 1),
        _ => panic!("expected bindings"),
    }
    assert!(execute_search(FilterType::Binding, "super", &full_config, None, None).is_none());
    match execute_search(FilterType::Keyword, "terminal", &full_config, None, None) {
        Some(SearchResult::Keyword(k)) => assert_eq!(k.0.len(), 1),
        _ => panic!("expected keywords"),
    }
    match execute_search(FilterType::Resource, "regolithwm.font.size", &full_config, Some(&rt), None) {
        Some(SearchResult::Resource(r)) => {
            assert!(r.has_exact_match);
            assert_eq!(r.runtime_value, Some("12".to_string()));
        }
        _ => panic!("expected a resource result"),
    }
    let failing = FailingProvider.get_all_resources();
    assert!(failing.is_err());
}

#[test]
fn xrdb_output_is_parsed_into_resources() {
    let out = parse_xrdb_output("regolithwm.border.width:\t2\n*.font:  Mono 10\nno colon here\n : empty\nregolithwm.border.width: 4\n");
    assert_eq!(out.len(), 2);
    assert_eq!(out.get("regolithwm.border.width").map(|s| s.as_str()), Some("4"));
    assert_eq!(out.get("*.font").map(|s| s.as_str()), Some("Mono 10"));
    assert!(out.get("no colon here").is_none());
}

#[test]
fn string_map_keeps_first_insertion_order() {
    let mut m = StringMap::new();
    m.insert("b".to_string(), "1".to_string());
    m.insert("a".to_string(), "2".to_string());
    m.insert("b".to_string(), "3".to_string());
    assert_eq!(m.len(), 2);
    let (k0, v0) = m.entry(0);
    assert_eq!((k0.as_str(), v0.as_str()), ("b", "3"));
    let (k1, v1) = m.entry(1);
    assert_eq!((k1.as_str(), v1.as_str()), ("a", "2"));
}

#[test]
fn resource_usages_through_variables_ignore_query_case() {
    let full_config = create_test_full_config(
        "set_from_resource $border regolithwm.border.width 3\ndefault_border pixel $border",
        &[],
    );
    let lower = resource_search("regolithwm.border.width", &full_config, &MockResourceProvider::default());
    let mixed = resource_search("RegolithWM.Border.Width", &full_config, &MockResourceProvider::default());
    let lines = |r: &ResourceSearchResult| r.usages.iter().map(|u| u.line_number).collect::<Vec<usize>>();
    assert!(mixed.has_exact_match);
    assert_eq!(lines(&lower), vec![1, 2]);
    assert_eq!(lines(&mixed), vec![1, 2]);
}

#[test]
fn collect_similar_resources_lists_the_closest_names() {
    let cands: Vec<Vec<char>> = ["abc", "abd", "abx", "zzzzzzzzzzzzzzzzzzzz"].iter().map(|s| s.chars().collect()).collect();
    assert_eq!(collect_similar_resources("ABX", &cands), vec!["abc", "abd"]);
}
