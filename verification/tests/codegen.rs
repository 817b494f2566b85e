use tailor::expr::{color_arg, hsla, items, ColorSpec, ColorToken, Hoist};
use tailor::node::{child_call, controlled_bind_prop, entity_bind_prop, prefixed_call, split_mark};
use tailor::rust::{comment, indent, string, Source};

fn token(label: &str, path: &str) -> ColorToken {
    ColorToken { label: label.to_string(), path: path.to_string() }
}

fn strings(lines: &[&str]) -> Vec<String> {
    lines.iter().map(|s| s.to_string()).collect()
}

#[test]
fn indentation_tracks_open_and_close() {
    let mut source = Source::new();
    source.open("fn main() {");
    source.line("let x = 1;");
    source.close("}");
    assert_eq!(source.finish(), "fn main() {\n    let x = 1;\n}\n");
}

#[test]
fn blank_lines_never_double_up() {
    let mut source = Source::new();
    source.blank();
    source.line("a");
    source.blank();
    source.blank();
    source.line("b");
    assert_eq!(source.finish(), "a\n\nb\n");
}

#[test]
fn strings_escape_only_what_they_must() {
    assert_eq!(string("hi"), "\"hi\"");
    assert_eq!(string("a\"b"), "\"a\\\"b\"");
    assert_eq!(string("line\nnext"), "\"line\\nnext\"");
    assert_eq!(string("café"), "\"café\"");
    assert_eq!(string("a\u{0}b"), "\"a\\u{0}b\"");
    assert_eq!(string("bell\u{7}"), "\"bell\\u{7}\"");
}

#[test]
fn comments_wrap_at_the_width() {
    let lines = comment("// ", "one two three four five", 12);
    assert_eq!(lines, ["// one two", "// three four", "// five"]);
}

#[test]
fn a_hoisted_colour_is_declared_once() {
    let mut hoist = Hoist::default();
    assert_eq!(hoist.named(&token("blue", "ColorName::Blue")), "blue_6");
    assert_eq!(hoist.named(&token("blue", "ColorName::Blue")), "blue_6");
    assert_eq!(hoist.named(&token("red", "ColorName::Red")), "red_6");
    assert_eq!(
        hoist.lines(),
        [
            "let blue_6 = theme(cx).color(ColorName::Blue, 6).hsla();",
            "let red_6 = theme(cx).color(ColorName::Red, 6).hsla();"
        ]
    );
}

#[test]
fn a_custom_colour_hoists_under_its_hex() {
    let mut hoist = Hoist::default();
    assert_eq!(hoist.custom("#3B82F6"), "hex_3b82f6");
    assert_eq!(hoist.lines(), ["let hex_3b82f6 = css(\"#3B82F6\").unwrap();"]);
}

#[test]
fn colour_arguments_match_the_setter_they_feed() {
    let mut hoist = Hoist::default();
    let named = ColorSpec::Named(token("grape", "ColorName::Grape"));
    let custom = ColorSpec::Custom("#101010".into());

    assert_eq!(color_arg(&mut hoist, "ColorValue", &named), "ColorName::Grape");
    assert_eq!(color_arg(&mut hoist, "ColorValue", &custom), "hex_101010");
    assert_eq!(color_arg(&mut hoist, "ColorName", &named), "ColorName::Grape");
    assert_eq!(color_arg(&mut hoist, "ColorName", &custom), "ColorName::Blue");
    assert_eq!(color_arg(&mut hoist, "Color", &named), "Color::from_hsla(grape_6)");
    assert_eq!(color_arg(&mut hoist, "Color", &custom), "Color::hex(\"#101010\")");
}

#[test]
fn short_children_inline_and_long_ones_nest() {
    assert_eq!(child_call(vec!["Text::new(\"hi\")".into()]), [".child(Text::new(\"hi\"))"]);
    let nested = child_call(vec!["div()".into(), "    .flex()".into()]);
    assert_eq!(nested, [".child(", "    div()", "        .flex()", ")"]);
}

#[test]
fn an_empty_source_is_one_newline() {
    let source = Source::new();
    assert!(source.is_empty());
    assert_eq!(source.finish(), "\n");
}

#[test]
fn a_block_lands_at_the_current_indentation() {
    let mut source = Source::new();
    source.open("impl X {");
    source.block(strings(&["fn a() {}", "", "fn b() {}"]));
    source.close("}");
    assert!(!source.is_empty());
    assert_eq!(source.finish(), "impl X {\n    fn a() {}\n\n    fn b() {}\n}\n");
}

#[test]
fn closing_at_the_left_margin_stays_there() {
    let mut source = Source::new();
    source.close("}");
    source.line("x");
    assert_eq!(source.finish(), "}\nx\n");
}

#[test]
fn indent_leaves_empty_lines_empty() {
    assert_eq!(indent(&strings(&["a", "", "  b"])), ["    a", "", "      b"]);
}

#[test]
fn strings_escape_backslashes_tabs_and_returns() {
    assert_eq!(string("a\\b"), "\"a\\\\b\"");
    assert_eq!(string("a\tb\rc"), "\"a\\tb\\rc\"");
    assert_eq!(string("\u{7f}\u{1b}"), "\"\\u{7f}\\u{1b}\"");
    assert_eq!(string(""), "\"\"");
}

#[test]
fn a_word_longer_than_the_width_gets_a_line_of_its_own() {
    let lines = comment("// ", "a extraordinarily b", 5);
    assert_eq!(lines, ["// a", "// extraordinarily", "// b"]);
}

#[test]
fn a_comment_with_no_words_is_the_bare_prefix() {
    assert_eq!(comment("// ", "   ", 10), ["//"]);
    assert_eq!(comment("/// ", "", 10), ["///"]);
}

#[test]
fn a_named_colour_goes_through_hsla_once() {
    let mut hoist = Hoist::new();
    assert!(hoist.is_empty());
    let blue = ColorSpec::Named(token("blue", "ColorName::Blue"));
    assert_eq!(hsla(&mut hoist, &blue), "blue_6");
    assert_eq!(hsla(&mut hoist, &blue), "blue_6");
    assert_eq!(hsla(&mut hoist, &ColorSpec::Custom("#ABC".into())), "hex_abc");
    assert_eq!(
        hoist.lines(),
        [
            "let blue_6 = theme(cx).color(ColorName::Blue, 6).hsla();",
            "let hex_abc = css(\"#ABC\").unwrap();"
        ]
    );
}

#[test]
fn pushing_a_name_twice_keeps_the_first_expression() {
    let mut hoist = Hoist::new();
    assert_eq!(hoist.push("a".into(), "1".into()), "a");
    assert_eq!(hoist.push("a".into(), "2".into()), "a");
    assert_eq!(hoist.lines(), ["let a = 1;"]);
}

#[test]
fn lists_of_strings_print_as_array_literals() {
    assert_eq!(items(&strings(&["a", "b"])), "[\"a\", \"b\"]");
    assert_eq!(items(&[]), "[]");
}

#[test]
fn a_prefixed_call_wraps_its_expression() {
    assert_eq!(prefixed_call("when", strings(&["x"])), [".when(x)"]);
}

#[test]
fn a_mark_comment_is_split_off() {
    let (mark, rest) = split_mark(strings(&["x"]));
    assert_eq!(mark, None);
    assert_eq!(rest, ["x"]);
}

#[test]
fn a_node_tag_rides_in_front_of_a_collapsed_call_and_inside_an_expanded_one() {
    let tag = "//__tailor:7";
    let (mark, rest) = split_mark(strings(&["  //__tailor:7", "Button::new()"]));
    assert_eq!(mark, Some("  //__tailor:7".to_string()));
    assert_eq!(rest, ["Button::new()"]);

    assert_eq!(child_call(strings(&[tag, "Button::new()"])), [tag, ".child(Button::new())"]);
    assert_eq!(
        child_call(strings(&[tag, "div()", "    .flex()"])),
        [".child(", tag, "    div()", "        .flex()", ")"]
    );
    let long = "x".repeat(90);
    assert_eq!(child_call(vec![long.clone()]), [".child(".to_string(), format!("    {long}"), ")".to_string()]);
}

#[test]
fn bindable_components_name_the_prop_their_binding_drives() {
    assert_eq!(entity_bind_prop("textinput"), Some("value"));
    assert_eq!(entity_bind_prop("tagsinput"), Some("tags"));
    assert_eq!(entity_bind_prop("select"), Some("selected"));
    assert_eq!(entity_bind_prop("button"), None);
}

#[test]
fn controlled_builders_name_the_prop_their_binding_drives() {
    assert_eq!(controlled_bind_prop("checkbox"), Some("checked"));
    assert_eq!(controlled_bind_prop("rating"), Some("value"));
    assert_eq!(controlled_bind_prop("textinput"), None);
}

#[test]
fn a_custom_colour_name_keeps_only_lowercased_ascii_letters_and_digits() {
    let mut hoist = Hoist::default();
    assert_eq!(hoist.custom("rgb(ÄB, 12)"), "hex_rgbb12");
    assert_eq!(hoist.custom("#ABCDEF"), "hex_abcdef");
}
