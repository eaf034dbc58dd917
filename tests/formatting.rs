use alejandra::config::FormattingOptions;
use alejandra::format::{format_tree, in_memory, needs_write, tree_from_walk, Status, WalkStep};
use alejandra::sort::{get_attr_key, key_less, sort_attr_set_entries};
use alejandra::tree::{element_text, Element, Kind};

fn chars(s: &str) -> Vec<char> {
    s.chars().collect()
}

fn binding(key: &str) -> Element {
    Element::Node(
        Kind::KeyValue,
        vec![
            Element::Node(Kind::Key, vec![Element::Node(Kind::IdentNode, vec![Element::Token(Kind::Ident, chars(key))])]),
            Element::Token(Kind::Whitespace, chars(" ")),
            Element::Token(Kind::OtherToken, chars("=")),
        ],
    )
}

fn inherit(names: &[&str]) -> Element {
    let mut cs = vec![Element::Token(Kind::OtherToken, chars("inherit"))];
    for n in names {
        cs.push(Element::Token(Kind::Whitespace, chars(" ")));
        cs.push(Element::Node(Kind::IdentNode, vec![Element::Token(Kind::Ident, chars(n))]));
    }
    Element::Node(Kind::Inherit, cs)
}

fn sorting(keep_self_first: bool) -> FormattingOptions {
    FormattingOptions { sort_attrs: true, sort_flake: false, keep_self_first }
}

fn format(text: &str, options: FormattingOptions) -> (Status, String) {
    in_memory("test.nix".to_string(), text.to_string(), options)
}

fn changed(status: &Status) -> Option<bool> {
    match status {
        Status::Changed(c) => Some(*c),
        Status::Error(_) => None,
    }
}

#[test]
fn default_options() {
    let o = FormattingOptions::default();
    assert!(!o.sort_attrs);
    assert!(!o.sort_flake);
    assert!(o.keep_self_first);
}

#[test]
fn sort_keeps_self_first_and_stable() {
    let cs = vec![binding("self"), binding("b"), binding("a"), binding("self")];
    let order = sort_attr_set_entries(&cs, &vec![0, 1, 2, 3], &sorting(true));
    assert_eq!(order, vec![0, 3, 2, 1]);
}

#[test]
fn sort_self_plain_when_not_kept_first() {
    let cs = vec![binding("self"), binding("z"), binding("a")];
    let order = sort_attr_set_entries(&cs, &vec![0, 1, 2], &sorting(false));
    assert_eq!(order, vec![2, 0, 1]);
}

#[test]
fn sort_disabled_keeps_source_order() {
    let cs = vec![binding("b"), binding("a")];
    let options = FormattingOptions::default();
    assert_eq!(sort_attr_set_entries(&cs, &vec![0, 1], &options), vec![0, 1]);
}

#[test]
fn sort_equal_keys_keep_order() {
    let cs = vec![binding("x"), binding("a"), binding("x"), binding("a")];
    let order = sort_attr_set_entries(&cs, &vec![0, 1, 2, 3], &sorting(true));
    assert_eq!(order, vec![1, 3, 0, 2]);
}

#[test]
fn sort_uses_positions() {
    let cs = vec![
        Element::Token(Kind::CurlyOpen, chars("{")),
        binding("b"),
        Element::Token(Kind::Whitespace, chars(" ")),
        binding("a"),
    ];
    assert_eq!(sort_attr_set_entries(&cs, &vec![1, 3], &sorting(true)), vec![1, 0]);
}

#[test]
fn sort_empty_set() {
    let cs: Vec<Element> = Vec::new();
    assert_eq!(sort_attr_set_entries(&cs, &Vec::new(), &sorting(true)), Vec::<usize>::new());
}

#[test]
fn keys_of_entries() {
    assert_eq!(get_attr_key(&binding("foo")), chars("foo"));
    assert_eq!(get_attr_key(&inherit(&["x", "y"])), chars("x"));
    assert_eq!(get_attr_key(&Element::Token(Kind::Comment, chars("# c"))), chars(""));
}

#[test]
fn key_order_is_codepoint_order() {
    assert!(key_less(&chars("B"), &chars("a"), true));
    assert!(key_less(&chars("a"), &chars("ab"), true));
    assert!(!key_less(&chars("ab"), &chars("a"), true));
    assert!(key_less(&chars("self"), &chars("a"), true));
    assert!(!key_less(&chars("self"), &chars("self"), true));
    assert!(!key_less(&chars("self"), &chars("a"), false));
}

#[test]
fn one_entry_stays_on_one_line() {
    let (status, out) = format("{ a = 1; }", FormattingOptions::default());
    assert_eq!(out, "{a = 1;}");
    assert_eq!(changed(&status), Some(true));
}

#[test]
fn two_entries_go_one_per_line_sorted() {
    let (status, out) = format("{ b = 1; a = 2; }", sorting(true));
    assert_eq!(out, "{\n  a = 2;\n  b = 1;\n}");
    assert_eq!(changed(&status), Some(true));
}

#[test]
fn sort_disabled_keeps_entries_in_place() {
    let (_, out) = format("{ b = 1; a = 2; }", FormattingOptions::default());
    assert_eq!(out, "{\n  b = 1;\n  a = 2;\n}");
}

#[test]
fn comment_forces_vertical() {
    let (status, out) = format("{ /* c */ a = 1; }", FormattingOptions::default());
    assert!(out.contains('\n'));
    assert_eq!(out, "{\n  /* c */\n  a = 1;\n}");
    assert_eq!(changed(&status), Some(true));
}

#[test]
fn canonical_text_is_unchanged() {
    let (status, out) = format("{\n  a = 2;\n  b = 1;\n}", sorting(true));
    assert_eq!(changed(&status), Some(false));
    assert_eq!(out, "{\n  a = 2;\n  b = 1;\n}");
    let (status, out) = format("{a = 1;}", FormattingOptions::default());
    assert_eq!(changed(&status), Some(false));
    assert_eq!(out, "{a = 1;}");
}

#[test]
fn formatting_twice_is_formatting_once() {
    for text in ["{ b = 1; a = { y = 2; x = 3; }; }", "{ a = 1; }", "{ }", "let x = 1; in x"] {
        let (_, once) = format(text, sorting(true));
        let (status, twice) = format(&once, sorting(true));
        assert_eq!(once, twice);
        assert_eq!(changed(&status), Some(false));
    }
}

#[test]
fn empty_set_is_horizontal() {
    let (_, out) = format("{ }", FormattingOptions::default());
    assert_eq!(out, "{}");
}

#[test]
fn nested_sets_indent_deeper() {
    let (_, out) = format("{ b = 1; a = { y = 2; x = 3; }; }", sorting(true));
    assert_eq!(out, "{\n  a = {\n    x = 3;\n    y = 2;\n  };\n  b = 1;\n}");
}

#[test]
fn text_without_sets_is_verbatim() {
    let text = "let\n  x = 1; # one\nin   x";
    let (status, out) = format(text, sorting(true));
    assert_eq!(out, text);
    assert_eq!(changed(&status), Some(false));
}

#[test]
fn parse_error_returns_text_unchanged() {
    let (status, out) = format("{ a = ", FormattingOptions::default());
    assert!(matches!(status, Status::Error(_)));
    assert_eq!(out, "{ a = ");
}

#[test]
fn write_back_only_when_changed_and_asked() {
    assert!(needs_write(&Status::Changed(true), true));
    assert!(!needs_write(&Status::Changed(true), false));
    assert!(!needs_write(&Status::Changed(false), true));
    assert!(!needs_write(&Status::Error("e".to_string()), true));
}

#[test]
fn rec_followed_by_space_breaks_line() {
    let (_, out) = format("rec { a = 1; }", FormattingOptions::default());
    assert_eq!(out, "rec\n{a = 1;}");
}

#[test]
fn comment_before_brace_kept_on_own_line() {
    let (_, out) = format("rec /* c */ { a = 1; }", FormattingOptions::default());
    assert_eq!(out, "rec\n/* c */\n{\n  a = 1;\n}");
}

#[test]
fn inherit_sorted_by_first_name() {
    let (_, out) = format("{ z = 1; inherit b a; }", sorting(true));
    assert_eq!(out, "{\n  inherit b a;\n  z = 1;\n}");
}

#[test]
fn self_entry_first_in_set() {
    let (_, out) = format("{ b = 1; self = 2; a = 3; }", sorting(true));
    assert_eq!(out, "{\n  self = 2;\n  a = 3;\n  b = 1;\n}");
    let (_, out) = format("{ b = 1; self = 2; a = 3; }", sorting(false));
    assert_eq!(out, "{\n  a = 3;\n  b = 1;\n  self = 2;\n}");
}

#[test]
fn tree_rebuilt_from_walk() {
    let step = |kind: &str, text: &str, enter: bool, token: bool| WalkStep {
        kind: kind.to_string(),
        text: chars(text),
        enter,
        token,
    };
    let walk = vec![
        step("NODE_ROOT", "", true, false),
        step("TOKEN_IDENT", "x", true, true),
        step("TOKEN_IDENT", "x", false, true),
        step("TOKEN_WHITESPACE", " ", true, true),
        step("TOKEN_WHITESPACE", " ", false, true),
        step("NODE_ROOT", "", false, false),
    ];
    let root = tree_from_walk(&walk).unwrap();
    assert_eq!(element_text(&root), chars("x "));
    let mut short = walk;
    short.pop();
    assert!(tree_from_walk(&short).is_none());
}

#[test]
fn hand_built_set_formats() {
    let set = Element::Node(
        Kind::AttrSet,
        vec![
            Element::Token(Kind::CurlyOpen, chars("{")),
            binding("b"),
            binding("a"),
            Element::Token(Kind::CurlyClose, chars("}")),
        ],
    );
    let out = format_tree("t".to_string(), &set, sorting(true)).unwrap();
    assert_eq!(out, chars("{\n  a =\n  b =\n}"));
    let broken = Element::Node(Kind::AttrSet, vec![Element::Token(Kind::CurlyOpen, chars("{"))]);
    assert!(format_tree("t".to_string(), &broken, sorting(true)).is_err());
}

#[test]
fn duplicate_self_entries_keep_their_order() {
    let (_, out) = format("{ self = 1; b = 2; a = 3; self = 4; }", sorting(true));
    assert_eq!(out, "{\n  self = 1;\n  self = 4;\n  a = 3;\n  b = 2;\n}");
}

#[test]
fn comment_only_set_is_vertical() {
    let (_, out) = format("{ /* c */ }", FormattingOptions::default());
    assert_eq!(out, "{\n  /* c */\n}");
}

#[test]
fn comments_between_entries_are_kept() {
    let (_, out) = format("{ b = 1; # note\n a = 2; }", sorting(true));
    assert_eq!(out, "{\n  # note\n  a = 2;\n  b = 1;\n}");
    let (status, again) = format(&out, sorting(true));
    assert_eq!(again, out);
    assert_eq!(changed(&status), Some(false));
}
