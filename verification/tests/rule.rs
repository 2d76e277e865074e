use rast::{found_function, BaseRule, ScanFinding};

fn finding(text: &str, start: usize, end: usize) -> ScanFinding {
    ScanFinding { text: text.to_string(), start, end }
}

/// What a finding holds, for comparison.
fn plain(found: &[ScanFinding]) -> Vec<(String, usize, usize)> {
    found.iter().map(|f| (f.text.clone(), f.start, f.end)).collect()
}

fn items(source: &str) -> Vec<syn::Item> {
    syn::parse_file(source).unwrap().items
}

#[test]
fn new_rule_state_is_empty() {
    let rule = BaseRule::new();
    assert!(rule.findings.is_empty());
    assert!(rule.stack.is_empty());
    let rule = BaseRule::default();
    assert!(rule.findings.is_empty());
    assert!(rule.stack.is_empty());
}

#[test]
fn default_finding_is_blank() {
    let blank = ScanFinding::default();
    assert_eq!((blank.text.as_str(), blank.start, blank.end), ("", 0, 0));
}

#[test]
fn cloned_finding_holds_the_same() {
    let one = finding("here", 3, 5);
    let two = one.clone();
    assert_eq!(plain(&[one]), plain(&[two]));
}

#[test]
fn findings_are_kept_in_the_order_recorded() {
    let mut rule = BaseRule::new();
    rule.add_finding(finding("first", 1, 1));
    rule.add_finding(finding("second", 2, 4));
    rule.add_finding(finding("third", 9, 9));
    assert_eq!(
        plain(&rule.get_findings()),
        vec![("first".to_string(), 1, 1), ("second".to_string(), 2, 4), ("third".to_string(), 9, 9)]
    );
}

#[test]
fn get_findings_leaves_the_findings_in_place() {
    let mut rule = BaseRule::new();
    rule.add_finding(finding("kept", 7, 8));
    let copy = rule.get_findings();
    assert_eq!(plain(&copy), vec![("kept".to_string(), 7, 8)]);
    assert_eq!(plain(&rule.get_findings()), plain(&copy));
    assert_eq!(rule.findings.len(), 1);
}

#[test]
fn drain_hands_over_everything_and_a_second_drain_nothing() {
    let mut rule = BaseRule::new();
    rule.add_finding(finding("a", 1, 1));
    rule.add_finding(finding("b", 2, 2));
    let first = rule.consume_findings();
    assert_eq!(plain(&first), vec![("a".to_string(), 1, 1), ("b".to_string(), 2, 2)]);
    let second = rule.consume_findings();
    assert!(second.is_empty());
    assert!(rule.get_findings().is_empty());
}

#[test]
fn drain_in_the_middle_of_a_visit_keeps_the_open_nodes() {
    let mut rule = BaseRule::new();
    rule.push_label("outer".to_string());
    rule.add_finding(finding("early", 1, 1));
    assert_eq!(rule.consume_findings().len(), 1);
    rule.add_finding(finding("late", 2, 2));
    assert_eq!(rule.stack, vec!["outer".to_string()]);
    assert_eq!(plain(&rule.consume_findings()), vec![("late".to_string(), 2, 2)]);
    assert_eq!(rule.pop(), Some("outer".to_string()));
}

#[test]
fn labels_leave_in_the_reverse_of_the_order_they_came() {
    let mut rule = BaseRule::new();
    rule.push_label("a".to_string());
    rule.push_label("b".to_string());
    rule.push_label("c".to_string());
    assert_eq!(rule.pop(), Some("c".to_string()));
    assert_eq!(rule.pop(), Some("b".to_string()));
    assert_eq!(rule.pop(), Some("a".to_string()));
    assert_eq!(rule.pop(), None);
    assert_eq!(rule.pop(), None);
    assert!(rule.stack.is_empty());
}

/// A visit that enters each node, may record, visits the children and leaves.
fn visit(rule: &mut BaseRule, depth: usize, width: usize) {
    rule.push_label(format!("node{}", depth));
    if depth % 2 == 0 {
        rule.add_finding(finding("seen", depth + 1, depth + 1));
    }
    if depth > 0 {
        for _ in 0..width {
            visit(rule, depth - 1, width);
        }
    }
    let left = rule.pop();
    assert_eq!(left, Some(format!("node{}", depth)));
}

#[test]
fn stack_depth_is_restored_after_a_full_visit() {
    let mut rule = BaseRule::new();
    rule.push_label("file".to_string());
    rule.push_label("module".to_string());
    let before = rule.stack.clone();
    visit(&mut rule, 4, 3);
    assert_eq!(rule.stack.len(), 2);
    assert_eq!(rule.stack, before);
    // 1 node at depth 4, 9 at depth 2, 81 at depth 0 recorded a finding.
    assert_eq!(rule.findings.len(), 91);
}

#[test]
fn label_is_the_first_word() {
    assert_eq!(BaseRule::label_of("Item::Fn { attrs: [] }"), "Item::Fn");
    assert_eq!(BaseRule::label_of("word"), "word");
    assert_eq!(BaseRule::label_of("  \t\n lead trail  "), "lead");
    assert_eq!(BaseRule::label_of("a b"), "a");
    assert_eq!(BaseRule::label_of("tab\tseparated"), "tab");
}

#[test]
fn label_of_blank_text_is_empty() {
    assert_eq!(BaseRule::label_of(""), "");
    assert_eq!(BaseRule::label_of("   "), "");
    assert_eq!(BaseRule::label_of("\n\t \r"), "");
}

#[test]
fn label_agrees_with_the_standard_library() {
    let texts = [
        "",
        " ",
        "x",
        " x",
        "x ",
        "Item::Struct { vis: Visibility::Inherited }",
        "\u{2003}wide\u{a0}gap",
        "\u{3000}\u{1680}multi\u{2028}line",
        "h\u{e9}llo w\u{f6}rld",
        "\u{200b}zero-width is no space",
        "\u{85}next\u{205f}line",
    ];
    for text in texts {
        let expected = text.split_whitespace().next().unwrap_or_default();
        assert_eq!(BaseRule::label_of(text), expected, "label of {:?}", text);
    }
}

#[test]
fn item_names_tell_the_kinds_of_declaration_apart() {
    let found = items(
        "fn f() {}\nstruct S;\nenum E { A }\nimpl S {}\ntrait T {}\nmod m {}\nuse std::fmt;\nconst C: u8 = 1;\nstatic G: u8 = 2;\ntype A = u8;\nextern \"C\" {}\nmacro_rules! m { () => {} }\nunion U { a: u8 }\nextern crate core;\n",
    );
    let names: Vec<String> = found.iter().map(BaseRule::get_item_name).collect();
    assert_eq!(
        names,
        vec![
            "Item::Fn",
            "Item::Struct",
            "Item::Enum",
            "Item::Impl",
            "Item::Trait",
            "Item::Mod",
            "Item::Use",
            "Item::Const",
            "Item::Static",
            "Item::Type",
            "Item::ForeignMod",
            "Item::Macro",
            "Item::Union",
            "Item::ExternCrate",
        ]
    );
}

#[test]
fn item_name_is_one_word() {
    for item in items("#[doc = \" spaced   out \"]\npub fn f(a: u8) -> u8 { a }\nmod m { fn g() {} }") {
        let name = BaseRule::get_item_name(&item);
        assert!(!name.is_empty());
        assert!(name.starts_with("Item::"));
        assert!(!name.chars().any(char::is_whitespace));
    }
}

#[test]
fn push_enters_an_item_under_its_name() {
    let found = items("mod outer { fn inner() {} }");
    let mut rule = BaseRule::new();
    rule.add_finding(finding("kept", 1, 1));
    rule.push(&found[0]);
    assert_eq!(rule.stack, vec!["Item::Mod".to_string()]);
    if let syn::Item::Mod(outer) = &found[0] {
        let inner = &outer.content.as_ref().unwrap().1[0];
        rule.push(inner);
    }
    assert_eq!(rule.stack, vec!["Item::Mod".to_string(), "Item::Fn".to_string()]);
    assert_eq!(rule.findings.len(), 1);
    assert_eq!(rule.pop(), Some("Item::Fn".to_string()));
    assert_eq!(rule.pop(), Some("Item::Mod".to_string()));
    assert_eq!(rule.pop(), None);
}

#[test]
fn trail_joins_the_labels_with_arrows() {
    let mut rule = BaseRule::new();
    assert_eq!(rule.trail(), "");
    rule.push_label("Item::Mod".to_string());
    assert_eq!(rule.trail(), "Item::Mod");
    rule.push_label("Item::Impl".to_string());
    rule.push_label("Item::Fn".to_string());
    assert_eq!(rule.trail(), "Item::Mod -> Item::Impl -> Item::Fn");
    assert_eq!(rule.trail(), rule.stack.join(" -> "));
}

#[test]
fn dump_text_is_the_styled_trail_and_the_debug_text() {
    let mut rule = BaseRule::new();
    rule.push_label("a".to_string());
    rule.push_label("b".to_string());
    assert_eq!(rule.dump_text("Item::X { y }"), "\x1b[91m[+]: a -> b\x1b[0m\nItem::X { y }");
    assert_eq!(BaseRule::new().dump_text(""), "\x1b[91m[+]: \x1b[0m\n");
}

#[test]
fn dump_shows_the_item_after_the_trail() {
    let found = items("struct Point { x: u8 }");
    let mut rule = BaseRule::new();
    rule.push(&found[0]);
    let text = rule.dump(&found[0]);
    let expected = format!("\x1b[91m[+]: Item::Struct\x1b[0m\n{:?}", found[0]);
    assert_eq!(text, expected);
    assert!(text.contains("Item::Struct {"));
    assert!(text.contains("Point"));
    // The dump changes nothing.
    assert_eq!(rule.stack, vec!["Item::Struct".to_string()]);
}

/// A small generator of numbers that gives the same run every time.
struct Dice(u64);

impl Dice {
    fn roll(&mut self, sides: u64) -> u64 {
        self.0 = self.0.wrapping_mul(6364136223846793005).wrapping_add(1442695040888963407);
        (self.0 >> 33) % sides
    }
}

#[test]
fn labels_of_texts_made_by_chance_agree_with_the_standard_library() {
    let pieces = ["a", "Item::Fn", " ", "\t", "\n", "\u{a0}", "\u{2009}", "{", "\u{e9}", "\u{200b}", "\u{3000}"];
    let mut dice = Dice(5);
    for round in 0..2000 {
        let mut text = String::new();
        for _ in 0..dice.roll(8) {
            text.push_str(pieces[dice.roll(pieces.len() as u64) as usize]);
        }
        let expected = text.split_whitespace().next().unwrap_or_default();
        assert_eq!(BaseRule::label_of(&text), expected, "round {}: {:?}", round, text);
    }
}

#[test]
fn stack_is_restored_after_balanced_moves_made_by_chance() {
    let mut dice = Dice(3);
    for round in 0..500 {
        let mut rule = BaseRule::new();
        for i in 0..dice.roll(4) {
            rule.push_label(format!("base{}", i));
        }
        let before = rule.stack.clone();
        let mut open = 0;
        for step in 0..dice.roll(40) {
            match dice.roll(4) {
                0 => {
                    rule.push_label(format!("n{}", step));
                    open += 1;
                }
                1 if open > 0 => {
                    assert!(rule.pop().is_some());
                    open -= 1;
                }
                2 => rule.add_finding(finding("f", 1, 1)),
                3 => {
                    let _ = rule.consume_findings();
                }
                _ => {}
            }
        }
        for _ in 0..open {
            assert!(rule.pop().is_some());
        }
        assert_eq!(rule.stack, before, "round {}", round);
    }
}

#[test]
fn found_function_names_the_function_and_keeps_the_lines() {
    let finding = found_function("main", 3, 4);
    assert_eq!((finding.text.as_str(), finding.start, finding.end), ("Found function: main", 3, 4));
    let finding = found_function("", 0, 0);
    assert_eq!((finding.text.as_str(), finding.start, finding.end), ("Found function: ", 0, 0));
    let finding = found_function("r#\u{fc}ber", usize::MAX, 1);
    assert_eq!(finding.text, "Found function: r#\u{fc}ber");
    assert_eq!((finding.start, finding.end), (usize::MAX, 1));
}

#[test]
fn ascii_white_space_is_the_space_and_tab_to_carriage_return() {
    for code in 0u8..=0x7f {
        let c = code as char;
        let blank = c == ' ' || (0x09..=0x0d).contains(&code);
        let text = format!("a{}b", c);
        assert_eq!(BaseRule::label_of(&text), if blank { "a" } else { text.as_str() }, "U+{:04X}", code);
    }
}

#[test]
fn item_name_is_the_first_word_of_the_debug_text() {
    for item in items("fn f() {}\nstruct S { a: u8 }\nmod m { use x::y; }\nimpl S { fn g(&self) {} }") {
        let debug = format!("{:?}", item);
        assert!(debug.starts_with("Item::"));
        assert_eq!(BaseRule::get_item_name(&item), BaseRule::label_of(&debug));
        assert_eq!(BaseRule::get_item_name(&item), debug.split_whitespace().next().unwrap());
        let mut rule = BaseRule::new();
        rule.push(&item);
        assert_eq!(rule.stack, vec![BaseRule::label_of(&debug)]);
    }
}
