use colored::Color;
use rbow::color::color_from_str;
use rbow::config::{Config, ConfigPath, ConfigRule, ConfigRuleGroup, ConfigStyle};
use rbow::rule::{stylize_captures, Rule, RuleStyle};
use rbow::stylize::{filter_line, Stylize};

fn fg(c: Color) -> RuleStyle {
    RuleStyle {
        foreground_color: Some(c),
        background_color: None,
    }
}

fn bg(c: Color) -> RuleStyle {
    RuleStyle {
        foreground_color: None,
        background_color: Some(c),
    }
}

fn error_rule() -> Rule {
    let red = Color::TrueColor { r: 231, g: 60, b: 62 };
    Rule::new(r"(.*)([eE][rR][rR][oO][rR])(.*)", vec![fg(red), bg(red), fg(red)]).unwrap()
}

#[test]
fn error_line_is_highlighted() {
    let rules = vec![error_rule()];
    assert_eq!(
        filter_line(&rules, "boot: ERROR main"),
        "\x1b[38;2;231;60;62mboot: \x1b[0m\x1b[48;2;231;60;62mERROR\x1b[0m\x1b[38;2;231;60;62m main\x1b[0m"
    );
}

#[test]
fn unmatched_line_passes_through() {
    let rules = vec![error_rule()];
    assert_eq!(rules.stylize("all good"), None);
    assert_eq!(filter_line(&rules, "all good"), "all good");
}

#[test]
fn first_matching_rule_wins() {
    let rules = vec![
        Rule::new("(foo)", vec![fg(Color::Red)]).unwrap(),
        Rule::new("(bar)", vec![fg(Color::Blue)]).unwrap(),
    ];
    assert_eq!(filter_line(&rules, "foo bar"), "\x1b[31mfoo\x1b[0m bar");
}

#[test]
fn group_free_rule_is_skipped() {
    let rules = vec![
        Rule::new("warn", vec![fg(Color::Red)]).unwrap(),
        Rule::new("(warn)", vec![fg(Color::Yellow)]).unwrap(),
    ];
    assert_eq!(rules[0].stylize("warn!"), None);
    assert_eq!(filter_line(&rules, "warn!"), "\x1b[33mwarn\x1b[0m!");
}

#[test]
fn nested_group_takes_outer_style() {
    let style_1 = RuleStyle {
        foreground_color: Some(Color::Blue),
        background_color: Some(Color::Yellow),
    };
    let rule = Rule::new(r">(a (b))", vec![fg(Color::Red), style_1]).unwrap();
    assert_eq!(rule.stylize(">a b"), Some(">\x1b[31ma b\x1b[0m".to_string()));
}

#[test]
fn both_colors_share_one_escape() {
    let style = RuleStyle {
        foreground_color: Some(Color::Blue),
        background_color: Some(Color::Yellow),
    };
    let rule = Rule::new("(b)", vec![style]).unwrap();
    assert_eq!(rule.stylize("abc"), Some("a\x1b[43;34mb\x1b[0mc".to_string()));
}

#[test]
fn style_without_colors_leaves_group_plain() {
    let plain = RuleStyle {
        foreground_color: None,
        background_color: None,
    };
    let rule = Rule::new("(b)(c)", vec![plain, fg(Color::Green)]).unwrap();
    assert_eq!(rule.stylize("abcd"), Some("ab\x1b[32mc\x1b[0md".to_string()));
}

#[test]
fn extra_styles_are_ignored_and_trailing_groups_plain() {
    let rule = Rule::new("(x)(y)", vec![fg(Color::Red)]).unwrap();
    assert_eq!(rule.stylize("xy"), Some("\x1b[31mx\x1b[0my".to_string()));
    let rule = Rule::new("(x)", vec![fg(Color::Red), fg(Color::Blue), fg(Color::Green)]).unwrap();
    assert_eq!(rule.stylize("xy"), Some("\x1b[31mx\x1b[0my".to_string()));
}

#[test]
fn second_style_goes_to_second_group() {
    let rule = Rule::new("(a)?(b)", vec![fg(Color::Red), fg(Color::Cyan)]).unwrap();
    assert_eq!(rule.stylize("b"), Some("\x1b[36mb\x1b[0m".to_string()));
}

#[test]
fn absent_group_does_not_move_the_cursor() {
    let rule = Rule::new("(z)?(b)", vec![fg(Color::Red), fg(Color::Blue)]).unwrap();
    assert_eq!(rule.stylize("abc"), Some("a\x1b[34mb\x1b[0mc".to_string()));
}

#[test]
fn empty_group_gives_empty_region() {
    let rule = Rule::new("a(x*)b", vec![fg(Color::Red)]).unwrap();
    assert_eq!(rule.stylize("ab"), Some("a\x1b[31m\x1b[0mb".to_string()));
}

#[test]
fn non_ascii_line_is_cut_on_byte_spans() {
    let rule = Rule::new("(é+)", vec![fg(Color::Red)]).unwrap();
    assert_eq!(rule.stylize("aééz"), Some("a\x1b[31méé\x1b[0mz".to_string()));
}

#[test]
fn splicing_given_spans() {
    let caps = vec![Some((0, 5)), Some((1, 3)), None, Some((2, 4)), Some((4, 5))];
    let styles = vec![fg(Color::Red), fg(Color::Blue), fg(Color::Yellow), fg(Color::Green)];
    assert_eq!(
        stylize_captures("abcde", &caps, &styles),
        "a\x1b[31mbc\x1b[0md\x1b[32me\x1b[0m"
    );
}

#[test]
fn bright_and_true_colors() {
    let st = RuleStyle {
        foreground_color: Some(Color::BrightWhite),
        background_color: Some(Color::TrueColor { r: 0, g: 7, b: 255 }),
    };
    let rule = Rule::new("(q)", vec![st]).unwrap();
    assert_eq!(rule.stylize("q"), Some("\x1b[48;2;0;7;255;97mq\x1b[0m".to_string()));
}

#[test]
fn bad_pattern_is_refused() {
    assert!(Rule::new("(unclosed", vec![]).is_err());
}

#[test]
fn hex_colors_parse() {
    assert_eq!(color_from_str("#aabbcc"), Color::TrueColor { r: 0xaa, g: 0xbb, b: 0xcc });
    assert_eq!(color_from_str("#E73C3E"), Color::TrueColor { r: 231, g: 60, b: 62 });
    assert_eq!(color_from_str("nothex"), Color::TrueColor { r: 0, g: 0, b: 0 });
    assert_eq!(color_from_str("#12345"), Color::TrueColor { r: 0, g: 0, b: 0 });
    assert_eq!(color_from_str(""), Color::TrueColor { r: 0, g: 0, b: 0 });
    assert_eq!(color_from_str("#gg0000"), Color::TrueColor { r: 0, g: 0, b: 0 });
}

#[test]
fn example_compiles_to_three_rules() {
    let config = Config::example();
    assert_eq!(config.rule_groups.len(), 2);
    assert_eq!(config.rule_groups[0].group_name, "errors_and_warnings");
    assert_eq!(config.rule_groups[1].rules[0].name, "ISO8601");
    let rules = config.as_rules().unwrap();
    assert_eq!(rules.len(), 3);
    assert_eq!(rules[1].pattern(), r"(.*)([wW][aA][rR][nN][iI][nN][gG])(.*)");
    assert_eq!(
        rules[0].style(1),
        Some(&bg(Color::TrueColor { r: 231, g: 60, b: 62 }))
    );
    assert_eq!(
        filter_line(&rules, "a warning"),
        "\x1b[38;2;244;244;84ma \x1b[0m\x1b[48;2;244;244;84mwarning\x1b[0m\x1b[38;2;244;244;84m\x1b[0m"
    );
}

#[test]
fn config_with_bad_pattern_fails() {
    let config = Config {
        rule_groups: vec![ConfigRuleGroup {
            group_name: "g".to_string(),
            rules: vec![
                ConfigRule {
                    name: "ok".to_string(),
                    pattern: "(a)".to_string(),
                    styles: vec![ConfigStyle {
                        foreground_color: Some("#010203".to_string()),
                        background_color: None,
                    }],
                },
                ConfigRule {
                    name: "bad".to_string(),
                    pattern: "(".to_string(),
                    styles: vec![],
                },
            ],
        }],
    };
    assert!(config.as_rules().is_err());
}

#[test]
fn candidate_paths_walk_up_to_root() {
    let paths = ConfigPath::new("/a/b", ".rbow");
    assert_eq!(
        paths.iter(),
        vec!["/a/b/.rbow".to_string(), "/a/.rbow".to_string(), "/.rbow".to_string()]
    );
}

fn strip_escapes(s: &str) -> String {
    let mut out = String::new();
    let mut in_escape = false;
    for c in s.chars() {
        if in_escape {
            in_escape = c != 'm';
        } else if c == '\x1b' {
            in_escape = true;
        } else {
            out.push(c);
        }
    }
    out
}

#[test]
fn stripping_escapes_gives_the_line_back() {
    let rules = Config::example().as_rules().unwrap();
    for line in ["boot: ERROR main", "2024-01-02T03:04:05.6 warning é", "x"] {
        let out = filter_line(&rules, line);
        assert_eq!(strip_escapes(&out), line);
    }
    let rule = Rule::new("(a (b) c)(d)?", vec![fg(Color::Red), fg(Color::Blue)]).unwrap();
    let out = rule.stylize(">a b c<").unwrap();
    assert_eq!(strip_escapes(&out), ">a b c<");
}
