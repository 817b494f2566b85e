use tailor::action::{suggest, word_before};
use tailor::find::{hits, Pos};
use tailor::message::{Diagnostic, Severity};
use tailor::quickly::{rank, score, Go, Target};
use tailor::run::{started_line, Bottom, Build, LintSeverity, Status, MAX_LINES};
use tailor::workbench::{blurb_of, fold_icon, title_of, Inspector, Panel};
use tailor::session::{Event, Intent, Outcome, Phase, Profile};
use tailor::workspace::{FileLines, LineMap, NodeId};

#[test]
fn a_busy_status_is_the_one_stop_applies_to() {
    assert!(Status::Building.busy());
    assert!(Status::Running.busy());
    assert!(!Status::Idle.busy());
    assert!(!Status::Built.busy());
    assert!(!Status::Failed("x".into()).busy());
    assert!(!Status::Stopped.busy());
}

#[test]
fn the_console_keeps_the_tail_rather_than_growing_forever() {
    let mut build = Build::default();
    for n in 0..MAX_LINES + 10 {
        build.push(Phase::Build, n.to_string());
    }
    assert_eq!(build.console.len(), MAX_LINES);
    assert_eq!(build.console[0].text, "10");
    assert_eq!(build.console.last().unwrap().text, (MAX_LINES + 9).to_string());
}

#[test]
fn a_failure_says_why_in_the_status_line() {
    assert_eq!(Status::Failed("2 errors".into()).label(), "Build failed — 2 errors");
    assert_eq!(Status::Running.label(), "Running");
}

#[test]
fn every_status_has_a_label() {
    assert_eq!(Status::default(), Status::Idle);
    assert_eq!(Status::Idle.label(), "Ready");
    assert_eq!(Status::Building.label(), "Building…");
    assert_eq!(Status::Built.label(), "Build succeeded");
    assert_eq!(Status::Stopped.label(), "Stopped");
    assert_eq!(Status::Building.labelled(Profile::Release), "Building release…");
    assert_eq!(Status::Building.labelled(Profile::Debug), "Building…");
    assert_eq!(Status::Running.labelled(Profile::Release), "Running");
    assert_eq!(Bottom::default(), Bottom::Problems);
}

fn diagnostic(file: &str, line: usize, severity: Severity, code: Option<&str>) -> Diagnostic {
    Diagnostic {
        file: file.into(),
        line,
        col: 5,
        col_end: 6,
        severity,
        message: "cannot find value `x`".into(),
        rendered: "error: cannot find value `x`".into(),
        code: code.map(|c| c.to_string()),
    }
}

fn mapped_build() -> Build {
    let mut build = Build::new(Profile::Debug);
    build.lines = LineMap {
        files: vec![FileLines { path: "src/ui/main.rs".into(), lines: vec![(4, NodeId(3)), (9, NodeId(5))] }],
    };
    build
}

#[test]
fn a_compiler_error_points_at_the_component_that_generated_it() {
    let mut build = mapped_build();
    let done = build.apply_build_event(
        Intent::Run,
        Event::Diagnostic(diagnostic("src/ui/main.rs", 11, Severity::Error, Some("E0425"))),
    );
    assert!(!done);
    assert_eq!(build.problems.len(), 1);
    let problem = &build.problems[0];
    assert_eq!(problem.severity, LintSeverity::Error);
    assert_eq!(problem.node, Some(NodeId(5)));
    assert_eq!(problem.message, "[E0425] cannot find value `x`");
    assert_eq!(problem.fix, "src/ui/main.rs:11:5");
    assert_eq!(build.diagnostics.len(), 1);

    // A note is already part of the error above it.
    build.apply_build_event(Intent::Run, Event::Diagnostic(diagnostic("src/ui/main.rs", 4, Severity::Note, None)));
    assert_eq!(build.problems.len(), 1);
    build.apply_build_event(Intent::Run, Event::Diagnostic(diagnostic("src/ui/main.rs", 4, Severity::Warning, None)));
    assert_eq!(build.problems[1].severity, LintSeverity::Warning);
    assert_eq!(build.problems[1].node, Some(NodeId(3)));
    assert_eq!(build.problems[1].message, "cannot find value `x`");
}

#[test]
fn lines_are_split_and_finishes_close_the_console() {
    let mut build = Build::default();
    assert!(!build.apply_build_event(Intent::Run, Event::Line(Phase::Build, "one\ntwo".into())));
    assert!(!build.apply_build_event(Intent::Run, Event::Line(Phase::Build, String::new())));
    assert_eq!(build.console.len(), 3);
    assert_eq!(build.console[1].text, "two");
    assert_eq!(build.console[2].text, "");

    // A successful build on the way to a launch does not end the session.
    assert!(!build.apply_build_event(Intent::Run, Event::Finished(Phase::Build, Outcome::Succeeded)));
    assert_eq!(build.status, Status::Running);
    assert!(build.apply_build_event(Intent::Run, Event::Finished(Phase::Run, Outcome::Cancelled)));
    assert_eq!(build.status, Status::Stopped);
    assert_eq!(build.console.last().unwrap().text, "— run stopped —");
    assert_eq!(build.console.last().unwrap().phase, Phase::Run);
}

#[test]
fn a_build_alone_ends_when_it_succeeds() {
    let mut build = Build::default();
    assert!(build.apply_build_event(Intent::Build, Event::Finished(Phase::Build, Outcome::Succeeded)));
    assert_eq!(build.status, Status::Built);
    assert_eq!(build.console.last().unwrap().text, "— build finished —");
    assert!(build.apply_build_event(Intent::Build, Event::Finished(Phase::Build, Outcome::Failed("1 error".into()))));
    assert_eq!(build.status, Status::Failed("1 error".into()));
    assert_eq!(build.console.last().unwrap().text, "— build 1 error —");
}

#[test]
fn draining_stops_at_the_event_that_ends_the_session() {
    let mut build = Build::default();
    let finished = build.drain(
        Intent::Build,
        vec![
            Event::Line(Phase::Build, "Compiling".into()),
            Event::Finished(Phase::Build, Outcome::Succeeded),
            Event::Line(Phase::Build, "late".into()),
        ],
    );
    assert!(finished);
    assert_eq!(build.console.len(), 2);
    assert_eq!(build.console[1].text, "— build finished —");
    assert!(!build.drain(Intent::Run, vec![]));
}

#[test]
fn every_occurrence_is_found_line_by_line() {
    let text = "let x = 1;\nlet y = x + x;\n";
    let found = hits(text, "x");
    assert_eq!(found, vec![Pos::new(0, 4), Pos::new(1, 8), Pos::new(1, 12)]);
}

#[test]
fn a_lowercase_needle_ignores_case_and_a_capital_does_not() {
    let text = "Button::new(\"button\")";
    assert_eq!(hits(text, "button").len(), 2, "smart case folds");
    assert_eq!(hits(text, "Button"), vec![Pos::new(0, 0)]);
}

#[test]
fn matches_do_not_overlap() {
    assert_eq!(hits("aaaa", "aa"), vec![Pos::new(0, 0), Pos::new(0, 2)]);
}

#[test]
fn columns_are_characters_so_a_wide_glyph_does_not_shift_the_rest() {
    let found = hits("é→end", "end");
    assert_eq!(found, vec![Pos::new(0, 2)]);
}

#[test]
fn an_empty_needle_finds_nothing_rather_than_everything() {
    assert!(hits("anything at all", "").is_empty());
}

#[test]
fn a_needle_longer_than_the_line_is_not_a_panic() {
    assert!(hits("ab\n", "abcdef").is_empty());
}

#[test]
fn crlf_lines_are_searched_without_their_return() {
    assert_eq!(hits("ab\r\ncab", "ab"), vec![Pos::new(0, 0), Pos::new(1, 1)]);
    assert_eq!(hits("x\n\nx", "x"), vec![Pos::new(0, 0), Pos::new(2, 0)]);
}

fn target(label: &str, detail: &str) -> Target {
    Target { label: label.into(), detail: detail.into(), go: Go::File(detail.into()) }
}

#[test]
fn a_subsequence_matches_and_a_missing_letter_does_not() {
    assert!(score("MainScreen", "msc").is_some());
    assert!(score("MainScreen", "main").is_some());
    assert!(score("MainScreen", "xyz").is_none());
    assert!(score("MainScreen", "nm").is_none());
}

#[test]
fn the_obvious_answer_wins() {
    let hits = rank(
        vec![target("dismiss_action_c", "src/a.rs"), target("MainScreen", "src/main_screen.rs")],
        "msc",
    );
    assert_eq!(hits[0].label, "MainScreen");
}

#[test]
fn a_prefix_beats_a_match_further_in() {
    let hits = rank(vec![target("stat_card.rs", "x"), target("card.rs", "y")], "card");
    assert_eq!(hits[0].label, "card.rs");
}

#[test]
fn a_shorter_name_wins_a_tie() {
    let hits = rank(vec![target("submit_and_close", "x"), target("submit", "y")], "submit");
    assert_eq!(hits[0].label, "submit");
}

#[test]
fn the_detail_is_searchable_but_ranks_below_the_name() {
    let hits = rank(vec![target("mod.rs", "src/ui/mod.rs"), target("theme.rs", "src/theme.rs")], "theme");
    assert_eq!(hits[0].label, "theme.rs");
    let hits = rank(vec![target("mod.rs", "src/ui/mod.rs")], "ui");
    assert_eq!(hits.len(), 1);
}

#[test]
fn an_empty_needle_lists_everything_it_can_show() {
    let all: Vec<Target> = (0..40).map(|n| target(&format!("f{n}"), "x")).collect();
    let hits = rank(all, "");
    assert_eq!(hits.len(), 20, "the list is capped so it stays a list");
}

#[test]
fn scores_add_up_as_the_penalties_say() {
    assert_eq!(score("abc", ""), Some(1000));
    // A prefix hit costs nothing but the length tax: 8 chars / 4.
    assert_eq!(score("MainView", "main"), Some(2));
    // Starting three in costs nine, plus 5 / 4.
    assert_eq!(score("xyzab", "ab"), Some(10));
    // A gap onto a word boundary costs at most two: `a_b` at 0 then 2.
    assert_eq!(score("a_b", "ab"), Some(1));
    // A gap elsewhere costs twice its width: `axb` at 0 then 2.
    assert_eq!(score("axb", "ab"), Some(2));
}

#[test]
fn results_say_where_they_go() {
    assert_eq!(Go::Document("d".into()).icon(), "file-text");
    assert_eq!(Go::File("f".into()).icon(), "file-code-2");
    assert_eq!(Go::Action(0).icon(), "zap");
    assert_eq!(Go::Node("d".into(), NodeId(1)).icon(), "box");
    assert_eq!(Go::Document("d".into()).kind(), "document");
    assert_eq!(Go::File("f".into()).kind(), "file");
    assert_eq!(Go::Action(0).kind(), "action");
    assert_eq!(Go::Node("d".into(), NodeId(1)).kind(), "component");
}

fn scope() -> Vec<(String, String)> {
    vec![
        ("self.email".into(), "signal".into()),
        ("self.password".into(), "signal".into()),
        ("self.email_field".into(), "field".into()),
    ]
}

#[test]
fn the_documents_own_names_rank_above_the_languages() {
    let hits = suggest(&scope(), "ema");
    assert_eq!(hits[0].text, "self.email");
    assert_eq!(hits[0].kind, "signal");
}

#[test]
fn a_short_needle_suggests_nothing_rather_than_everything() {
    assert!(suggest(&scope(), "").is_empty());
    assert!(suggest(&scope(), "e").is_empty());
}

#[test]
fn keywords_are_offered_but_only_after_what_is_in_scope() {
    let hits = suggest(&scope(), "ma");
    assert!(hits.iter().any(|c| c.text == "match"));
    let hits = suggest(&scope(), "notif");
    assert_eq!(hits[0].text, "cx.notify();");
}

#[test]
fn an_exact_match_is_not_a_suggestion() {
    let hits = suggest(&scope(), "match");
    assert!(!hits.iter().any(|c| c.text == "match"), "{hits:?}");
}

#[test]
fn the_word_before_the_caret_stops_at_the_boundaries() {
    assert_eq!(word_before("let x = ema", 11), "ema");
    assert_eq!(word_before("let x = ema", 5), "x");
    assert_eq!(word_before("let x = ema", 7), "");
    assert_eq!(word_before("", 0), "");
    assert_eq!(word_before("value_2", 7), "value_2");
    assert_eq!(word_before("ab", 99), "ab");
}

#[test]
fn nothing_is_offered_after_a_dot() {
    assert_eq!(word_before("self.ema", 8), "");
    assert!(suggest(&scope(), &word_before("self.ema", 8)).is_empty());
}

#[test]
fn suggestions_are_capped_so_the_popup_stays_a_popup() {
    let wide: Vec<(String, String)> =
        (0..40).map(|n| (format!("self.value_{n}"), "signal".to_string())).collect();
    assert!(suggest(&wide, "val").len() <= 8);
}

#[test]
fn suggestions_come_prefix_first_then_by_text_without_repeats() {
    let scope = vec![
        ("count".to_string(), "field".to_string()),
        ("recount".to_string(), "signal".to_string()),
        ("count".to_string(), "signal".to_string()),
        ("counter".to_string(), "field".to_string()),
    ];
    let hits = suggest(&scope, "Cou");
    let texts: Vec<&str> = hits.iter().map(|c| c.text.as_str()).collect();
    assert_eq!(texts, ["count", "counter", "recount"]);
    assert_eq!(hits[0].kind, "field");
    assert_eq!(hits[2].kind, "signal");
}

#[test]
fn a_new_build_starts_from_a_clean_console() {
    let mut build = Build::default();
    build.push(Phase::Build, "old".into());
    build.apply_build_event(
        Intent::Build,
        Event::Diagnostic(diagnostic("src/ui/main.rs", 1, Severity::Error, None)),
    );
    build.begin(LineMap { files: vec![FileLines { path: "src/x.rs".into(), lines: vec![(1, NodeId(4))] }] });
    assert!(build.console.is_empty());
    assert!(build.problems.is_empty());
    assert!(build.diagnostics.is_empty());
    assert_eq!(build.status, Status::Building);
    assert_eq!(build.lines.files.len(), 1);
    assert_eq!(
        started_line("My App", Profile::Release, "/tmp/out"),
        "My App · release → /tmp/out"
    );
    assert_eq!(started_line("A", Profile::Debug, "/b"), "A · debug → /b");
}

#[test]
fn a_build_that_cannot_start_says_why() {
    let mut build = Build::default();
    build.begin(LineMap::new());
    build.refuse("cargo was not found".into());
    assert_eq!(build.status, Status::Failed("cargo was not found".into()));
    assert_eq!(build.console.last().unwrap().text, "cargo was not found");
    assert!(!build.status.busy());
    build.note_stopped();
    assert_eq!(build.console.last().unwrap().text, "— stopped —");
}

#[test]
fn the_workbench_names_its_tabs_panels_and_pages() {
    assert_eq!(Inspector::Attributes.label(), "Attributes");
    assert_eq!(Inspector::Motion.icon(), "play");
    assert_eq!(Inspector::Identity.icon(), "tag");
    assert_eq!(Inspector::Connections.label(), "Connections");
    assert_eq!(fold_icon(Panel::Palette), "chevrons-left");
    assert_eq!(fold_icon(Panel::Code), "chevrons-right");
    assert_eq!(fold_icon(Panel::Problems), "chevrons-down");
    assert_eq!(title_of("canvas"), "Canvas");
    assert_eq!(title_of("whatever"), "General");
    assert_eq!(blurb_of("about"), "");
    assert_eq!(blurb_of("general"), "How Tailor behaves, and what a new project starts as.");
}

#[test]
fn a_long_name_still_scores() {
    let long = format!("main{}", "x".repeat(3000));
    assert_eq!(score(&long, "main"), Some((long.chars().count() / 4) as u32));
    assert_eq!(score(&long, "mx"), Some(long.chars().count() as u32 / 4 + 6));
}
