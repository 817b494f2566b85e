use tailor::message::{parse, Diagnostic, Message, Severity};
use tailor::session::{
    after_build, failure_reason, preflight, run_outcome, BuildState, Event, Exit, Intent, Next,
    Outcome, Phase, Profile,
};
use tailor::path::same_path;
use tailor::toolchain::{candidates, cargo, on_path, path_with_toolchain, MISSING};
use tailor::workspace::{fnv1a, node_at, slug, unsaved_key, FileLines, LineMap, NodeId, Workspace};

#[test]
fn an_error_carries_its_primary_span() {
    let line = r#"{"reason":"compiler-message","message":{
      "rendered":"error[E0425]: cannot find value `x`\n --> src/main.rs:3:13\n",
      "level":"error","message":"cannot find value `x` in this scope",
      "code":{"code":"E0425"},
      "spans":[
        {"file_name":"src/lib.rs","line_start":9,"column_start":1,"column_end":2,"is_primary":false},
        {"file_name":"src/main.rs","line_start":3,"column_start":13,"column_end":14,"is_primary":true}
      ]}}"#;
    let Message::Diagnostic(d) = parse(line) else {
        panic!("not a diagnostic");
    };
    assert_eq!(d.file, "src/main.rs");
    assert_eq!((d.line, d.col, d.col_end), (3, 13, 14));
    assert_eq!(d.severity, Severity::Error);
    assert_eq!(d.code.as_deref(), Some("E0425"));
    assert_eq!(d.message, "cannot find value `x` in this scope");
    assert!(d.rendered.contains("--> src/main.rs:3:13"));
    assert_eq!(d.location(), "src/main.rs:3:13");
}

#[test]
fn a_message_with_no_span_still_comes_through() {
    let line = r#"{"reason":"compiler-message","message":{
      "level":"error","message":"linking with `cc` failed","spans":[]}}"#;
    let Message::Diagnostic(d) = parse(line) else {
        panic!("not a diagnostic");
    };
    assert!(d.file.is_empty());
    assert_eq!(d.message, "linking with `cc` failed");
    assert_eq!(d.location(), "error");
    assert_eq!(d.rendered, "linking with `cc` failed");
}

#[test]
fn only_a_bin_artifact_is_something_to_run() {
    let bin = r#"{"reason":"compiler-artifact","target":{"kind":["bin"],"name":"demo"},
      "executable":"/tmp/demo/target/debug/demo"}"#;
    assert_eq!(parse(bin), Message::Executable("/tmp/demo/target/debug/demo".to_string()));

    let test = r#"{"reason":"compiler-artifact","target":{"kind":["test"],"name":"it"},
      "executable":"/tmp/demo/target/debug/deps/it-abc"}"#;
    assert_eq!(parse(test), Message::Other(String::new()));

    let lib = r#"{"reason":"compiler-artifact","target":{"kind":["lib"],"name":"demo"},
      "executable":null}"#;
    assert_eq!(parse(lib), Message::Other(String::new()));
}

#[test]
fn the_finish_line_says_whether_it_worked() {
    assert_eq!(
        parse(r#"{"reason":"build-finished","success":true}"#),
        Message::Finished { success: true }
    );
    assert_eq!(
        parse(r#"{"reason":"build-finished","success":false}"#),
        Message::Finished { success: false }
    );
}

#[test]
fn anything_else_is_kept_rather_than_dropped() {
    assert_eq!(
        parse("cargo:rerun-if-changed=build.rs"),
        Message::Other("cargo:rerun-if-changed=build.rs".into())
    );
    assert_eq!(parse(r#"{"reason":"something-new","x":1}"#), Message::Other(String::new()));
}

#[test]
fn severity_orders_worst_last_so_max_picks_the_error() {
    let worst = [Severity::Note, Severity::Error, Severity::Warning].into_iter().max();
    assert_eq!(worst, Some(Severity::Error));
    assert!(Severity::Error > Severity::Warning);
    assert!(Severity::Warning > Severity::Help);
}

#[test]
fn levels_name_their_severity() {
    assert_eq!(Severity::parse("error"), Some(Severity::Error));
    assert_eq!(Severity::parse("error: internal compiler error"), Some(Severity::Error));
    assert_eq!(Severity::parse("warning"), Some(Severity::Warning));
    assert_eq!(Severity::parse("help"), Some(Severity::Help));
    assert_eq!(Severity::parse("failure-note"), Some(Severity::Note));
    assert_eq!(Severity::parse("fatal"), None);
    assert_eq!(Severity::Warning.label(), "warning");
    assert_eq!(Severity::Note.label(), "note");
}

#[test]
fn trailing_whitespace_is_trimmed_from_a_stray_line() {
    assert_eq!(parse("hello  \r\n"), Message::Other("hello".into()));
    assert_eq!(parse(""), Message::Other(String::new()));
}

#[test]
fn json_that_is_not_an_object_says_nothing() {
    assert_eq!(parse("42"), Message::Other(String::new()));
    assert_eq!(parse("[1, 2]"), Message::Other(String::new()));
}

#[test]
fn a_message_of_unknown_level_keeps_its_rendering() {
    let line = r#"{"reason":"compiler-message","message":{
      "level":"mystery","message":"m","rendered":"shown  \n","spans":[]}}"#;
    assert_eq!(parse(line), Message::Other("shown".into()));
}

#[test]
fn a_warning_with_a_code_keeps_it() {
    let line = r#"{"reason":"compiler-message","message":{
      "level":"warning","message":"unused variable","rendered":"warning: unused",
      "code":{"code":"unused_variables"},
      "spans":[{"file_name":"src/a.rs","line_start":2,"column_start":5,"column_end":6,"is_primary":true}]}}"#;
    let Message::Diagnostic(d) = parse(line) else {
        panic!("not a diagnostic");
    };
    assert_eq!(d.severity, Severity::Warning);
    assert_eq!(d.code.as_deref(), Some("unused_variables"));
    assert_eq!(d.location(), "src/a.rs:2:5");
}

#[test]
fn a_phase_says_what_it_is() {
    assert_eq!(Phase::Build.label(), "Build");
    assert_eq!(Phase::Run.label(), "Run");
}

#[test]
fn only_release_needs_a_flag() {
    assert_eq!(Profile::Debug.flag(), None, "debug is cargo's default");
    assert_eq!(Profile::Release.flag(), Some("--release"));
    assert_eq!(Profile::default(), Profile::Debug);
}

#[test]
fn profiles_say_which_build_they_are() {
    assert_eq!(Profile::Debug.label(), "Debug");
    assert_eq!(Profile::Release.label(), "Release");
}

fn error_diagnostic(file: &str) -> Diagnostic {
    Diagnostic {
        file: file.into(),
        line: 1,
        col: 1,
        col_end: 2,
        severity: Severity::Error,
        message: "bad".into(),
        rendered: "error: bad".into(),
        code: None,
    }
}

#[test]
fn a_failed_build_counts_its_errors() {
    assert_eq!(failure_reason(0), "the build failed");
    assert_eq!(failure_reason(1), "1 error");
    assert_eq!(failure_reason(12), "12 errors");

    let mut state = BuildState::new();
    let events = state.on_message(Message::Diagnostic(error_diagnostic("src/a.rs")));
    assert_eq!(
        events,
        [
            Event::Line(Phase::Build, "error: bad".into()),
            Event::Diagnostic(error_diagnostic("src/a.rs"))
        ]
    );
    let mut warning = error_diagnostic("src/b.rs");
    warning.severity = Severity::Warning;
    state.on_message(Message::Diagnostic(warning));
    state.on_message(Message::Diagnostic(error_diagnostic("src/c.rs")));
    assert_eq!(state.errors(), 2);
    let (event, next) = state.finish(false, Some(false));
    assert_eq!(event, Event::Finished(Phase::Build, Outcome::Failed("2 errors".into())));
    assert_eq!(next, None);
}

#[test]
fn the_last_binary_linked_is_the_one_to_run() {
    let mut state = BuildState::new();
    assert!(state.on_message(Message::Executable("/t/first".into())).is_empty());
    assert!(state.on_message(Message::Executable("/t/second".into())).is_empty());
    assert!(state.on_message(Message::Other(String::new())).is_empty());
    assert_eq!(
        state.on_message(Message::Other("note".into())),
        [Event::Line(Phase::Build, "note".into())]
    );
    assert!(state.on_message(Message::Finished { success: true }).is_empty());
    let (event, next) = state.finish(false, Some(true));
    assert_eq!(event, Event::Finished(Phase::Build, Outcome::Succeeded));
    assert_eq!(next, Some(Some("/t/second".to_string())));
}

#[test]
fn a_stopped_build_is_cancelled_whatever_cargo_said() {
    let mut state = BuildState::new();
    state.on_message(Message::Executable("/t/app".into()));
    let (event, next) = state.finish(true, Some(true));
    assert_eq!(event, Event::Finished(Phase::Build, Outcome::Cancelled));
    assert_eq!(next, None);
    let (event, _) = BuildState::new().finish(false, None);
    assert_eq!(event, Event::Finished(Phase::Build, Outcome::Failed("the build failed".into())));
}

#[test]
fn build_only_never_launches_the_binary() {
    assert_eq!(after_build(Intent::Build, false, Some("/t/app".into())), Next::Stop);
    assert_eq!(after_build(Intent::Run, true, Some("/t/app".into())), Next::Stop);
    assert_eq!(after_build(Intent::Run, false, Some("/t/app".into())), Next::Launch("/t/app".into()));
    assert_eq!(
        after_build(Intent::Run, false, None),
        Next::Finish(Event::Finished(
            Phase::Run,
            Outcome::Failed("the build produced no binary to run".into())
        ))
    );
}

#[test]
fn a_program_says_how_it_ended() {
    assert_eq!(run_outcome(false, Some(Exit::Success)), Outcome::Succeeded);
    assert_eq!(run_outcome(false, Some(Exit::Code(101))), Outcome::Failed("exited with code 101".into()));
    assert_eq!(run_outcome(false, Some(Exit::Code(-2))), Outcome::Failed("exited with code -2".into()));
    assert_eq!(run_outcome(false, Some(Exit::Signal)), Outcome::Failed("stopped".into()));
    assert_eq!(run_outcome(false, None), Outcome::Failed("the process went away".into()));
    assert_eq!(run_outcome(true, Some(Exit::Code(1))), Outcome::Cancelled);
}

#[test]
fn a_workspace_with_no_manifest_says_so_rather_than_running_cargo() {
    let Err(err) = preflight(Some("/usr/bin/cargo".into()), false, "/tmp/nothing") else {
        panic!("started a build with no manifest");
    };
    assert!(err.contains("no Cargo.toml"), "{err}");
    assert_eq!(err, "/tmp/nothing has no Cargo.toml — export the project first");
    assert_eq!(preflight(None, true, "/tmp/x"), Err(MISSING.to_string()));
    assert_eq!(preflight(Some("/usr/bin/cargo".into()), true, "/tmp/x"), Ok("/usr/bin/cargo".to_string()));
}

#[test]
fn the_toolchain_directory_leads_the_path() {
    let cargo_path = std::path::Path::new("/opt/rust/bin/cargo");
    let dir = cargo_path.parent().map(|d| d.to_string_lossy().to_string());
    let path = path_with_toolchain(dir, vec!["/usr/bin".into(), "/bin".into()]);
    assert_eq!(path[0], "/opt/rust/bin");
    assert!(path.len() > 1);
}

#[test]
fn repeated_path_entries_side_by_side_collapse() {
    let path = path_with_toolchain(
        Some("/usr/bin".into()),
        vec!["/usr/bin".into(), "/bin".into(), "/bin".into(), "/usr/bin".into()],
    );
    assert_eq!(path, ["/usr/bin", "/bin", "/usr/bin"]);
    assert_eq!(path_with_toolchain(None, vec![]), Vec::<String>::new());
}

#[test]
fn candidates_come_in_the_order_worth_trying() {
    assert_eq!(
        candidates(Some("/x/cargo".into()), Some("/h".into()), Some("/home/me".into())),
        [
            "/x/cargo",
            "/h/bin/cargo",
            "/home/me/.cargo/bin/cargo",
            "/opt/homebrew/bin/cargo",
            "/usr/local/bin/cargo",
            "/usr/bin/cargo"
        ]
    );
    assert_eq!(candidates(None, None, None).len(), 3);
    assert_eq!(on_path(&["/usr/bin".to_string(), "/bin".to_string()]), ["/usr/bin/cargo", "/bin/cargo"]);
}

#[test]
fn the_first_runnable_candidate_wins_then_the_path() {
    let cands = vec![("/a/cargo".to_string(), false), ("/b/cargo".to_string(), true)];
    let path = vec![("/c/cargo".to_string(), true)];
    assert_eq!(cargo(&cands, &path), Some("/b/cargo".to_string()));
    let none = vec![("/a/cargo".to_string(), false)];
    assert_eq!(cargo(&none, &path), Some("/c/cargo".to_string()));
    assert_eq!(cargo(&none, &[]), None);
}

#[test]
fn the_hash_is_stable_across_runs() {
    assert_eq!(fnv1a(""), 0xcbf2_9ce4_8422_2325);
    assert_eq!(fnv1a("a"), 0xaf63_dc4c_8601_ec8c);
}

#[test]
fn an_export_directory_is_used_as_it_stands() {
    let workspace = Workspace::resolve(Some("/tmp/somewhere"), "/cfg/builds", "my_app", "unsaved/My App");
    assert_eq!(workspace.root, "/tmp/somewhere");
    assert!(!workspace.managed);
    assert_eq!(workspace.manifest(), "/tmp/somewhere/Cargo.toml");
    assert_eq!(workspace.target_dir(), "/tmp/somewhere/target");
}

#[test]
fn without_one_the_workspace_is_managed_and_named_after_the_project() {
    let key = unsaved_key("My App");
    assert_eq!(key, "unsaved/My App");
    let workspace = Workspace::resolve(None, "/cfg/builds", "my_app", &key);
    assert!(workspace.managed);
    assert!(workspace.root.starts_with("/cfg/builds/"));
    assert!(workspace.root["/cfg/builds/".len()..].starts_with("my_app-"), "{}", workspace.root);
}

#[test]
fn the_directory_is_keyed_by_path_so_two_demos_do_not_collide() {
    let one = Workspace::resolve(None, "/cfg/builds", "demo", "/a/demo.tailor");
    let two = Workspace::resolve(None, "/cfg/builds", "demo", "/b/demo.tailor");
    assert_ne!(one.root, two.root);
    let again = Workspace::resolve(None, "/cfg/builds", "demo", "/a/demo.tailor");
    assert_eq!(one.root, again.root);
}

#[test]
fn an_empty_export_directory_is_treated_as_unset() {
    assert!(Workspace::resolve(Some(""), "/cfg/builds", "my_app", "unsaved/My App").managed);
}

#[test]
fn a_slug_is_the_name_and_sixteen_hex_digits() {
    assert_eq!(slug("demo", ""), "demo-cbf29ce484222325");
    assert_eq!(slug("", "a"), "project-af63dc4c8601ec8c");
}

#[test]
fn a_line_maps_back_to_the_node_that_generated_it() {
    let id = NodeId(7);
    let map = LineMap {
        files: vec![
            FileLines { path: "src/lib.rs".into(), lines: vec![(1, NodeId(2))] },
            FileLines { path: "src/ui/main.rs".into(), lines: vec![(3, NodeId(1)), (10, id), (20, NodeId(9))] },
        ],
    };
    let file = "src/ui/main.rs";
    let line = 10;
    assert_eq!(node_at(&map, file, line), Some(id));
    assert_eq!(node_at(&map, file, line + 1), Some(id));
    let absolute = format!("/build/dir/{file}");
    assert_eq!(node_at(&map, &absolute, line), Some(id));
    assert_eq!(node_at(&map, "src/nowhere.rs", line), None);
    assert_eq!(node_at(&map, file, 2), None);
}

#[test]
fn a_directory_with_no_manifest_fails_before_spawning_anything() {
    let result = preflight(Some("/usr/bin/cargo".into()), false, "/tmp/tailor-build-empty");
    assert_eq!(
        result,
        Err("/tmp/tailor-build-empty has no Cargo.toml — export the project first".to_string())
    );
}

#[test]
fn the_same_directory_written_twice_is_one_entry() {
    let path = path_with_toolchain(
        Some("/opt/rust/bin".into()),
        vec!["/opt/rust/bin/".into(), "/usr/bin".into(), "/usr//bin/.".into(), "/bin".into()],
    );
    assert_eq!(path, ["/opt/rust/bin", "/usr/bin", "/bin"]);
}

#[test]
fn paths_compare_by_component() {

    assert!(same_path("/opt/rust/bin", "/opt/rust/bin/"));
    assert!(same_path("/a//b/./c", "/a/b/c"));
    assert!(same_path("./a", ".//a/"));
    assert!(!same_path("./a", "a"));
    assert!(!same_path("/a", "a"));
    assert!(!same_path("/a/b", "/a/c"));
    assert!(!same_path("/a/..", "/"));
    assert!(same_path("", ""));
    assert!(!same_path("", "."));
}

#[test]
fn a_line_map_is_built_sorted_with_the_last_tag_winning() {
    let mut map = LineMap::new();
    map.insert("src/ui/main.rs".into(), vec![(10, NodeId(1)), (3, NodeId(2)), (10, NodeId(3))]);
    map.insert("src/lib.rs".into(), vec![(1, NodeId(4))]);
    assert_eq!(map.files.len(), 2);
    assert_eq!(map.files[0].path, "src/lib.rs");
    assert_eq!(map.files[1].lines, vec![(3, NodeId(2)), (10, NodeId(3))]);
    assert_eq!(node_at(&map, "src/ui/main.rs", 12), Some(NodeId(3)));
    assert_eq!(node_at(&map, "/build/src/ui/main.rs", 5), Some(NodeId(2)));
    assert_eq!(node_at(&map, "src/lib.rs", 0), None);

    // Inserting a path again replaces what it had.
    map.insert("src/lib.rs".into(), vec![(2, NodeId(5))]);
    assert_eq!(map.files.len(), 2);
    assert_eq!(node_at(&map, "src/lib.rs", 9), Some(NodeId(5)));
}

#[test]
fn the_hash_runs_on_from_where_it_stopped() {
    let h = fnv1a("/a/");
    let mut g = h;
    for b in "demo.tailor".bytes() {
        g = (g ^ b as u64).wrapping_mul(0x100_0000_01b3);
    }
    assert_eq!(fnv1a("/a/demo.tailor"), g);
    assert_ne!(fnv1a("/a/demo.tailor"), fnv1a("/b/demo.tailor"));
}
