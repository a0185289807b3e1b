use regolith_configure::cli_args::Session;
use regolith_configure::paths::join_path;
use regolith_configure::config::full::ConfigLoader;
use regolith_configure::search::bindings::{normalize_binding, normalize_binding_within};
use regolith_configure::string_map::StringMap;
use regolith_configure::{get_session_type, ConfigPartial, FullConfig, SessionMappings};

/// Whether `path` matches the glob `pattern`, where `*` stands for any run
/// of characters other than `/`.
fn glob_matches(pattern: &[char], path: &[char]) -> bool {
    match pattern.first() {
        None => path.is_empty(),
        Some('*') => {
            let mut k = 0;
            loop {
                if glob_matches(&pattern[1..], &path[k..]) {
                    return true;
                }
                if k == path.len() || path[k] == '/' {
                    return false;
                }
                k += 1;
            }
        }
        Some(c) => !path.is_empty() && path[0] == *c && glob_matches(&pattern[1..], &path[1..]),
    }
}

/// The files among `files` that `pattern` matches, sorted as a directory
/// walk would give them.
fn expand_pattern(pattern: &str, files: &[(&str, &str)]) -> Vec<String> {
    let p: Vec<char> = pattern.chars().collect();
    let mut out: Vec<String> = files
        .iter()
        .filter(|(f, _)| glob_matches(&p, &f.chars().collect::<Vec<char>>()))
        .map(|(f, _)| f.to_string())
        .collect();
    out.sort();
    out
}

/// The files that a partial's include lines name, expanded against the
/// in-memory files.
fn imported_paths(partial: &ConfigPartial, files: &[(&str, &str)]) -> Vec<String> {
    let mut out = Vec::new();
    for pattern in partial.import_patterns().unwrap() {
        out.extend(expand_pattern(&pattern, files));
    }
    out
}

/// Loads a whole configuration from files held in memory; a missing file
/// fails as a failed read would.
fn load_config_from_memory(files: &[(&str, &str)], root: &str) -> Result<FullConfig, String> {
    let content_of = |p: &str| -> Result<String, String> {
        files
            .iter()
            .find(|(f, _)| *f == p)
            .map(|(_, c)| c.to_string())
            .ok_or(format!("No such file: {}", p))
    };
    let mut loader = ConfigLoader::new(root, &content_of(root)?);
    while !loader.is_done() {
        let patterns = loader.pending_patterns().map_err(|e| format!("{:?}", e))?;
        let mut matched = Vec::new();
        for pattern in patterns {
            matched.extend(expand_pattern(&pattern, files));
        }
        let mut read = Vec::new();
        for path in loader.paths_to_read(&matched) {
            let content = content_of(&path)?;
            read.push((path, content));
        }
        loader.add_imports(read);
    }
    Ok(loader.finish())
}

/// The root file of a session as the mappings give it, loaded with its
/// includes.
fn load_for_session(
    session: Session,
    mappings: &SessionMappings,
    files: &[(&str, &str)],
) -> Result<FullConfig, String> {
    let root = FullConfig::root_config_path(session, mappings).expect("Invalid session type provided");
    load_config_from_memory(files, &root)
}

fn partial(path: &str, content: &str) -> ConfigPartial {
    ConfigPartial::new(path, content)
}

fn mock_resource_map() -> StringMap {
    let mut m = StringMap::new();
    m.insert("mod".to_string(), "Super".to_string());
    m.insert("alt".to_string(), "Alt".to_string());
    m.insert("regolithwm.border.width".to_string(), "2".to_string());
    m.insert("regolithwm.font.size".to_string(), "12".to_string());
    m
}

fn mock_variable_map() -> StringMap {
    let mut m = StringMap::new();
    m.insert("mod".to_string(), "Super".to_string());
    m.insert("alt".to_string(), "Alt".to_string());
    m
}

fn pair(a: &str, b: &str) -> (String, String) {
    (a.to_string(), b.to_string())
}

fn file_name(path: &str) -> &str {
    path.rsplit('/').next().unwrap()
}

const FIXTURE_ROOT: &str = "/fixture/sway/config";

fn fixture_mappings() -> Vec<(Session, &'static str)> {
    vec![(Session::Wayland, FIXTURE_ROOT), (Session::X11, FIXTURE_ROOT)]
}

// ---------------------------------------------------------------------
// ConfigPartial::new and include patterns
// ---------------------------------------------------------------------

#[test]
fn test_config_partial_new_is_functional_for_imports() {
    let files = [("/cfg/included.conf", "some content")];
    let p = partial("/cfg/main.conf", "include included.conf");
    let paths = imported_paths(&p, &files);
    assert_eq!(paths.len(), 1);
    assert!(paths[0].ends_with("included.conf"));
}

#[test]
fn test_get_imported_paths_single_relative_include() {
    let files = [("/cfg/bindings.conf", "bindsym $mod+X kill")];
    let p = partial("/cfg/config.conf", "include bindings.conf");
    let paths = imported_paths(&p, &files);
    assert_eq!(paths.len(), 1);
    assert!(paths[0].ends_with("bindings.conf"));
    assert_eq!(paths[0], "/cfg/bindings.conf");
}

#[test]
fn test_get_imported_paths_single_absolute_include() {
    let files = [("/elsewhere/absolute.conf", "bindsym $mod+X kill")];
    let content = format!("include {}", "/elsewhere/absolute.conf");
    let p = partial("/cfg/config.conf", &content);
    let paths = imported_paths(&p, &files);
    assert_eq!(paths.len(), 1);
    assert_eq!(paths[0], "/elsewhere/absolute.conf");
}

#[test]
fn test_get_imported_paths_multiple_includes() {
    let files = [("/cfg/bindings.conf", "bindsym $mod+X kill"), ("/cfg/vars.conf", "set $mod Super")];
    let p = partial("/cfg/config.conf", "include bindings.conf\ninclude vars.conf");
    let paths = imported_paths(&p, &files);
    assert_eq!(paths.len(), 2);
    let names: Vec<&str> = paths.iter().map(|p| file_name(p)).collect();
    assert!(names.contains(&"bindings.conf"));
    assert!(names.contains(&"vars.conf"));
}

#[test]
fn test_get_imported_paths_glob_pattern() {
    let files = [
        ("/cfg/bind1.conf", "bindsym $mod+A exec a"),
        ("/cfg/bind2.conf", "bindsym $mod+B exec b"),
        ("/cfg/other.txt", "not a config"),
    ];
    let p = partial("/cfg/config.conf", "include bind*.conf");
    assert_eq!(p.import_patterns().unwrap(), vec!["/cfg/bind*.conf".to_string()]);
    let paths = imported_paths(&p, &files);
    assert_eq!(paths.len(), 2);
    let names: Vec<&str> = paths.iter().map(|p| file_name(p)).collect();
    assert!(names.contains(&"bind1.conf"));
    assert!(names.contains(&"bind2.conf"));
}

#[test]
fn test_get_imported_paths_quoted_include_path() {
    let files = [("/cfg/quoted.conf", "content")];
    let p = partial("/cfg/config.conf", "include \"quoted.conf\"");
    let paths = imported_paths(&p, &files);
    assert_eq!(paths.len(), 1);
    assert!(paths[0].ends_with("quoted.conf"));
}

#[test]
fn test_get_imported_paths_mixed_include_types() {
    let files = [("/cfg/relative.conf", "content1"), ("/abs/absolute.conf", "content2")];
    let content = format!("include relative.conf\ninclude {}", "/abs/absolute.conf");
    let p = partial("/cfg/config.conf", &content);
    let paths = imported_paths(&p, &files);
    assert_eq!(paths.len(), 2);
    assert!(paths.iter().any(|p| p.ends_with("relative.conf")));
    assert!(paths.iter().any(|p| p == "/abs/absolute.conf"));
}

#[test]
fn test_get_imported_paths_nonexistent_file_returns_empty() {
    let files: [(&str, &str); 0] = [];
    let p = partial("/cfg/config.conf", "include nonexistent.conf");
    let paths = imported_paths(&p, &files);
    assert!(paths.is_empty());
}

#[test]
fn test_get_imported_paths_skips_non_include_lines() {
    let files = [("/cfg/bindings.conf", "content")];
    let p = partial(
        "/cfg/config.conf",
        "# include comment.conf\nset $mod Super\ninclude bindings.conf\nbindsym $mod+X kill",
    );
    let paths = imported_paths(&p, &files);
    assert_eq!(paths.len(), 1);
    assert!(paths[0].ends_with("bindings.conf"));
}

#[test]
fn test_get_imported_paths_nested_directory_include() {
    let files = [("/cfg/subdir/nested.conf", "content")];
    let p = partial("/cfg/config.conf", "include subdir/nested.conf");
    let paths = imported_paths(&p, &files);
    assert_eq!(paths.len(), 1);
    assert!(paths[0].ends_with("nested.conf"));
}

#[test]
fn import_patterns_fail_without_parent_directory() {
    let p = partial("", "include bindings.conf");
    assert!(p.import_patterns().is_err());
    let abs = partial("", "include /etc/bindings.conf");
    assert_eq!(abs.import_patterns().unwrap(), vec!["/etc/bindings.conf".to_string()]);
}

// ---------------------------------------------------------------------
// ConfigPartial::config_variables
// ---------------------------------------------------------------------

#[test]
fn test_config_variables_set_commands() {
    let p = partial("/tmp/config.conf", "set $mod Super\nset $alt Alt\nset $term alacritty");
    let resources = mock_resource_map();
    let vars = p.config_variables(&resources);
    assert_eq!(vars.len(), 3);
    assert!(vars.contains(&pair("mod", "Super")));
    assert!(vars.contains(&pair("alt", "Alt")));
    assert!(vars.contains(&pair("term", "alacritty")));
}

#[test]
fn test_config_variables_set_from_resource() {
    let cases = [
        ("set_from_resource $mod mod mod_default", "Super"),
        ("set_from_resource $border wm.border.width 3", "3"),
    ];
    for (config_line, expected_value) in cases {
        let p = partial("/tmp/config.conf", config_line);
        let resources = if expected_value == "Super" { mock_resource_map() } else { StringMap::new() };
        let vars = p.config_variables(&resources);
        assert_eq!(vars.len(), 1, "Failed for: {}", config_line);
        assert_eq!(vars[0].1, expected_value, "Failed for: {}", config_line);
    }
}

#[test]
fn test_config_variables_mixed_set_and_set_from_resource() {
    let p = partial(
        "/tmp/config.conf",
        "set $term alacritty\nset_from_resource $mod mod mod_default\nset $launcher dmenu_run",
    );
    let resources = mock_resource_map();
    let vars = p.config_variables(&resources);
    assert_eq!(vars.len(), 3);
    assert!(vars.contains(&pair("term", "alacritty")));
    assert!(vars.contains(&pair("mod", "Super")));
    assert!(vars.contains(&pair("launcher", "dmenu_run")));
}

#[test]
fn test_config_variables_skips_irrelevant_lines() {
    let p = partial(
        "/tmp/config.conf",
        "# comment\nset $mod Super\nbindsym $mod+X kill\nset $alt Alt\n# another comment",
    );
    let resources = StringMap::new();
    let vars = p.config_variables(&resources);
    assert_eq!(vars.len(), 2);
    assert!(vars.contains(&pair("mod", "Super")));
    assert!(vars.contains(&pair("alt", "Alt")));
}

#[test]
fn test_config_variables_whitespace_and_dollar_prefix() {
    let p = partial(
        "/tmp/config.conf",
        "  set   $mod   Super\nset mod Super\nset_from_resource\t$alt\twm.alt\tAlt_default",
    );
    let resources = StringMap::new();
    let vars = p.config_variables(&resources);
    assert_eq!(vars.len(), 3);
    assert_eq!(vars[0].0, "mod");
    assert_eq!(vars[1].0, "mod");
    assert!(vars.contains(&pair("alt", "Alt_default")));
}

#[test]
fn test_config_variables_last_value_wins_for_duplicates() {
    let p = partial("/tmp/config.conf", "set $mod Super\nset $mod Hyper");
    let resources = StringMap::new();
    let vars = p.config_variables(&resources);
    assert_eq!(vars.len(), 2);
    assert_eq!(vars[1], pair("mod", "Hyper"));
}

#[test]
fn config_variables_skip_short_declarations() {
    let p = partial("/tmp/config.conf", "set $mod\nset_from_resource $a res\nset\n");
    let vars = p.config_variables(&StringMap::new());
    assert!(vars.is_empty());
}

// ---------------------------------------------------------------------
// ConfigPartial::config_bindings
// ---------------------------------------------------------------------

#[test]
fn test_config_bindings_bindsym_and_bindcode() {
    let cases = [
        ("bindsym Mod4+Return exec terminal", "Mod4+Return", 1),
        ("bindcode 36+Return exec terminal", "36+Return", 1),
    ];
    for (config_line, expected_orig, expected_line_no) in cases {
        let p = partial("/tmp/config.conf", config_line);
        let variables = mock_variable_map();
        let bindings = p.config_bindings(&variables);
        assert_eq!(bindings.len(), 1, "Failed for: {}", config_line);
        assert_eq!(bindings[0].orig_binding, expected_orig);
        assert_eq!(bindings[0].line_no, expected_line_no);
    }
}

#[test]
fn test_config_bindings_variable_resolution() {
    let cases = [
        ("$mod+Return", "Super+Return"),
        ("Shift+Return", "Shift+Return"),
        ("$mod+$alt+Return", "Super+Alt+Return"),
        ("$unknown+Return", "$unknown+Return"),
    ];
    for (binding, expected_normalized) in cases {
        let content = format!("bindsym {} exec terminal", binding);
        let p = partial("/tmp/config.conf", &content);
        let variables = mock_variable_map();
        let bindings = p.config_bindings(&variables);
        assert_eq!(bindings.len(), 1, "Failed for: {}", binding);
        assert_eq!(bindings[0].orig_binding, binding);
        assert_eq!(bindings[0].normalized_binding.as_str(), expected_normalized);
    }
}

#[test]
fn test_config_bindings_with_options() {
    let p = partial("/tmp/config.conf", "bindsym --release --whole-window $mod+Button1 floating resize");
    let variables = mock_variable_map();
    let bindings = p.config_bindings(&variables);
    assert_eq!(bindings.len(), 1);
    assert_eq!(bindings[0].orig_binding, "$mod+Button1");
    assert_eq!(bindings[0].normalized_binding.as_str(), "Super+Button1");
}

#[test]
fn test_config_bindings_multiple_bindings_and_line_numbers() {
    let p = partial(
        "/tmp/config.conf",
        "set $mod Super\nbindsym $mod+Return exec terminal\nbindsym $mod+Q kill\nbindsym $mod+D exec dmenu_run",
    );
    let variables = mock_variable_map();
    let bindings = p.config_bindings(&variables);
    assert_eq!(bindings.len(), 3);
    assert_eq!(bindings[0].orig_binding, "$mod+Return");
    assert_eq!(bindings[0].line_no, 2);
    assert_eq!(bindings[1].orig_binding, "$mod+Q");
    assert_eq!(bindings[1].line_no, 3);
    assert_eq!(bindings[2].orig_binding, "$mod+D");
    assert_eq!(bindings[2].line_no, 4);
}

#[test]
fn test_config_bindings_line_contents_preserved() {
    let p = partial("/tmp/config.conf", "bindsym $mod+Return exec terminal");
    let variables = mock_variable_map();
    let bindings = p.config_bindings(&variables);
    assert_eq!(bindings[0].line_contents, "bindsym $mod+Return exec terminal");
}

#[test]
fn config_bindings_ignore_other_commands_and_bare_commands() {
    let p = partial("/tmp/config.conf", "bindsym\nexec bindsym\n--release bindsym $mod+X kill");
    let bindings = p.config_bindings(&mock_variable_map());
    assert_eq!(bindings.len(), 1);
    assert_eq!(bindings[0].orig_binding, "$mod+X");
    assert_eq!(bindings[0].line_no, 3);
    assert_eq!(bindings[0].src_config.file_name, "/tmp/config.conf");
}

// ---------------------------------------------------------------------
// normalize_binding
// ---------------------------------------------------------------------

#[test]
fn test_normalize_binding_cases() {
    let variables = mock_variable_map();
    let cases = [
        ("$mod+Return", "Super+Return"),
        ("$mod+$alt+Return", "Super+Alt+Return"),
        ("Shift+Return", "Shift+Return"),
        ("$unknown+Return", "$unknown+Return"),
        ("$mod", "Super"),
        ("Shift+$mod+Return", "Shift+Super+Return"),
        ("  $mod+Return  ", "Super+Return"),
        ("", ""),
        ("$", "$"),
        ("$mod+$alt+$mod", "Super+Alt+Super"),
    ];
    for (input, expected) in cases {
        let result = normalize_binding(input, &variables);
        assert_eq!(result.as_str(), expected, "Failed for input: {:?}", input);
    }
}

#[test]
fn test_normalize_binding_empty_variables_map() {
    let variables = StringMap::new();
    let result = normalize_binding("$mod+Return", &variables);
    assert_eq!(result.as_str(), "$mod+Return");
}

#[test]
fn test_normalize_binding_chained_variables() {
    let mut variables = StringMap::new();
    variables.insert("mod".to_string(), "$wm_mod".to_string());
    variables.insert("wm_mod".to_string(), "Super".to_string());
    let result = normalize_binding("$mod+Return", &variables);
    assert_eq!(result.as_str(), "Super+Return");
}

#[test]
fn normalize_binding_within_reports_a_cycle() {
    let mut variables = StringMap::new();
    variables.insert("a".to_string(), "$b".to_string());
    variables.insert("b".to_string(), "$a".to_string());
    assert_eq!(normalize_binding_within("$a+X", &variables, 64), None);
    let ok = normalize_binding_within("$mod+X", &mock_variable_map(), 4);
    assert_eq!(ok.as_deref(), Some("Super+X"));
}

#[test]
fn normalize_binding_is_a_fixpoint() {
    let mut variables = StringMap::new();
    variables.insert("mod".to_string(), "$wm_mod".to_string());
    variables.insert("wm_mod".to_string(), "Super".to_string());
    let once = normalize_binding("$mod+Return", &variables);
    let twice = normalize_binding(&once, &variables);
    assert_eq!(once, twice);
}

// ---------------------------------------------------------------------
// Loading a whole configuration
// ---------------------------------------------------------------------

#[test]
fn test_new_from_session_valid_configs() {
    for session in [Session::Wayland, Session::X11] {
        let mappings = fixture_mappings();
        let files = [
            ("/fixture/sway/bindings.conf", "bindsym $mod+Enter exec terminal"),
            (FIXTURE_ROOT, "set $mod Super\ninclude bindings.conf"),
        ];
        let full_config = load_for_session(session, &mappings, &files).expect("Should succeed");
        assert_eq!(full_config.partials.len(), 2);
    }
}

#[test]
fn test_new_from_session_discovers_all_includes() {
    let mappings = fixture_mappings();
    let files = [
        ("/fixture/sway/bindings.conf", "bindsym $mod+Enter exec terminal"),
        ("/fixture/sway/more_bindings.conf", "bindsym $mod+D exec dmenu_run"),
        (FIXTURE_ROOT, "include bindings.conf\ninclude more_bindings.conf"),
    ];
    let full_config = load_for_session(Session::Wayland, &mappings, &files).expect("Should succeed");
    assert_eq!(full_config.partials.len(), 3);
    let names: Vec<&str> = full_config.partials.iter().map(|p| file_name(&p.file_name)).collect();
    assert!(names.contains(&"config"));
    assert!(names.contains(&"bindings.conf"));
    assert!(names.contains(&"more_bindings.conf"));
}

#[test]
fn test_new_from_session_nested_includes() {
    let mappings = fixture_mappings();
    let files = [
        ("/fixture/sway/level1.conf", "include level2.conf\nset $level1 true"),
        ("/fixture/sway/level2.conf", "set $level2 true"),
        (FIXTURE_ROOT, "include level1.conf"),
    ];
    let full_config = load_for_session(Session::Wayland, &mappings, &files).expect("Should succeed");
    assert_eq!(full_config.partials.len(), 3);
}

#[test]
fn test_new_from_session_nonexistent_root_config_returns_error() {
    let mappings: Vec<(Session, &'static str)> =
        vec![(Session::Wayland, "/tmp/regolith-nonexistent-test-root/config")];
    let files: [(&str, &str); 0] = [];
    let result = load_for_session(Session::Wayland, &mappings, &files);
    assert!(result.is_err());
}

#[test]
fn test_new_from_session_nonexistent_included_config_skipped() {
    let mappings = fixture_mappings();
    let files = [(FIXTURE_ROOT, "include nonexistent.conf")];
    let full_config = load_for_session(Session::Wayland, &mappings, &files).expect("Should succeed");
    assert_eq!(full_config.partials.len(), 1);
}

#[test]
fn test_new_full_config_from_session() {
    let mappings: Vec<(Session, &'static str)> = vec![
        (Session::Wayland, "/tmp/regolith-configuration/sway/config"),
        (Session::X11, "/tmp/regolith-configuration/i3/config"),
    ];
    let root = "\n            set $mod Super\n            include bindings.conf\n            include more_bindings.conf\n            ";
    let bindings = "\n            bindsym $mod+Enter exec terminal\n            bindsym $mod+Shift+Q kill\n            ";
    let files = [
        ("/tmp/regolith-configuration/sway/config", root),
        ("/tmp/regolith-configuration/sway/bindings.conf", bindings),
        ("/tmp/regolith-configuration/sway/more_bindings.conf", "bindsym $mod+D exec dmenu_run"),
    ];
    let full_config =
        load_for_session(Session::Wayland, &mappings, &files).expect("Failed to create FullConfig from session");
    for (path, content) in files {
        let matching = full_config
            .partials
            .iter()
            .find(|p| p.file_name == path)
            .expect("Config partial not found in FullConfig");
        assert_eq!(matching.config, content);
    }
}

#[test]
fn loader_reads_each_included_file_once() {
    let files = [
        ("/fixture/sway/a.conf", "include b.conf\ninclude a.conf"),
        ("/fixture/sway/b.conf", "include a.conf"),
        (FIXTURE_ROOT, "include a.conf\ninclude b.conf\ninclude a.conf"),
    ];
    let full_config = load_config_from_memory(&files, FIXTURE_ROOT).unwrap();
    let names: Vec<&str> = full_config.partials.iter().map(|p| p.file_name.as_str()).collect();
    assert_eq!(names, vec![FIXTURE_ROOT, "/fixture/sway/a.conf", "/fixture/sway/b.conf"]);
}

#[test]
fn loader_paths_to_read_skips_seen_and_repeated_paths() {
    let mut loader = ConfigLoader::new("/r/config", "include x.conf");
    assert!(!loader.is_done());
    let patterns = loader.pending_patterns().unwrap();
    assert_eq!(patterns, vec!["/r/x.conf".to_string()]);
    let matched = vec!["/r/x.conf".to_string(), "/r/x.conf".to_string()];
    let fresh = loader.paths_to_read(&matched);
    assert_eq!(fresh, vec!["/r/x.conf".to_string()]);
    loader.add_imports(vec![("/r/x.conf".to_string(), "include x.conf".to_string())]);
    let again = loader.paths_to_read(&matched);
    assert!(again.is_empty());
    loader.add_imports(vec![]);
    assert!(loader.is_done());
    let config = loader.finish();
    assert_eq!(config.partials.len(), 2);
    assert_eq!(config._config_root, "/r/config");
}

#[test]
fn root_config_path_follows_the_mappings() {
    let mappings: Vec<(Session, &'static str)> =
        vec![(Session::X11, "/etc/regolith/i3/config"), (Session::Wayland, "/etc/regolith/sway/config")];
    assert_eq!(FullConfig::root_config_path(Session::X11, &mappings).as_deref(), Some("/etc/regolith/i3/config"));
    assert_eq!(
        FullConfig::root_config_path(Session::Wayland, &mappings).as_deref(),
        Some("/etc/regolith/sway/config")
    );
    let only_x11: Vec<(Session, &'static str)> = vec![(Session::X11, "/etc/regolith/i3/config")];
    assert_eq!(FullConfig::root_config_path(Session::Wayland, &only_x11), None);
}

#[test]
fn full_config_collects_variables_in_file_order() {
    let files = [
        ("/fixture/sway/vars.conf", "set $mod Hyper\nset_from_resource $gap wm.gap 4"),
        (FIXTURE_ROOT, "set $mod Super\ninclude vars.conf"),
    ];
    let config = load_config_from_memory(&files, FIXTURE_ROOT).unwrap();
    let vars = config.get_all_variables(&StringMap::new());
    assert_eq!(vars.get("mod").map(|s| s.as_str()), Some("Hyper"));
    assert_eq!(vars.get("gap").map(|s| s.as_str()), Some("4"));
    assert_eq!(vars.len(), 2);
    let mut rt = StringMap::new();
    rt.insert("wm.gap".to_string(), "8".to_string());
    let vars_rt = config.get_all_variables(&rt);
    assert_eq!(vars_rt.get("gap").map(|s| s.as_str()), Some("8"));
    let all = config.get_all_bindings(&vars);
    assert!(all.0.is_empty());
    assert!(config.bindings_normalize_within(&vars, 1));
}

// ---------------------------------------------------------------------
// get_session_type
// ---------------------------------------------------------------------

#[test]
fn test_get_session_type_valid_values() {
    for (env_val, expected) in [("wayland", Some(Session::Wayland)), ("x11", Some(Session::X11))] {
        let vars = vec![pair("HOME", "/root"), pair("XDG_SESSION_TYPE", env_val)];
        assert_eq!(get_session_type(&vars), expected, "Failed for: {}", env_val);
    }
}

#[test]
fn test_get_session_type_invalid_values() {
    for env_val in ["", "mir", "Wayland", "X11"] {
        let vars = if env_val.is_empty() { vec![] } else { vec![pair("XDG_SESSION_TYPE", env_val)] };
        assert_eq!(get_session_type(&vars), None, "Expected None for: {:?}", env_val);
    }
}

#[test]
fn normalize_within_agrees_with_normalize_binding() {
    let mut variables = StringMap::new();
    variables.insert("mod".to_string(), "$wm_mod".to_string());
    variables.insert("wm_mod".to_string(), "Super".to_string());
    let full = normalize_binding(" $mod+Return ", &variables);
    assert_eq!(normalize_binding_within(" $mod+Return ", &variables, 1), None);
    let within = normalize_binding_within(" $mod+Return ", &variables, 2).unwrap();
    assert_eq!(within, full);
    assert_eq!(within, "Super+Return");
}

#[test]
fn bindings_do_not_stop_for_cyclic_variables() {
    let files = [(FIXTURE_ROOT, "set $a $b\nset $b $a\nbindsym $a+X kill")];
    let config = load_config_from_memory(&files, FIXTURE_ROOT).unwrap();
    let vars = config.get_all_variables(&StringMap::new());
    assert!(!config.bindings_normalize_within(&vars, 100));
    assert!(!config.partials[0].bindings_normalize_within(&vars, 100));
    let plain = [(FIXTURE_ROOT, "set $a Super\nbindsym $a+X kill")];
    let config2 = load_config_from_memory(&plain, FIXTURE_ROOT).unwrap();
    let vars2 = config2.get_all_variables(&StringMap::new());
    assert!(!config2.bindings_normalize_within(&vars2, 0));
    assert!(config2.bindings_normalize_within(&vars2, 1));
    assert_eq!(config2.get_all_bindings(&vars2).0[0].normalized_binding, "Super+X");
}

#[test]
fn include_back_to_the_root_is_skipped() {
    let files = [("/d/a.conf", "include config"), ("/d/config", "include a.conf")];
    let config = load_config_from_memory(&files, "/d/config").unwrap();
    let names: Vec<&str> = config.partials.iter().map(|p| p.file_name.as_str()).collect();
    assert_eq!(names, vec!["/d/config", "/d/a.conf"]);
}

#[test]
fn join_path_lets_an_absolute_path_replace_the_base() {
    assert_eq!(join_path("/etc/regolith", "/abs/x.conf"), "/abs/x.conf");
    assert_eq!(join_path("/etc/regolith", "x.conf"), "/etc/regolith/x.conf");
}
