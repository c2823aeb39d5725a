use colored::{Color, Colorize};
use rbow::rule::{Rule, RuleStyle};
use rbow::stylize::Stylize;

fn style_0() -> RuleStyle {
    RuleStyle {
        foreground_color: Some(Color::Red),
        background_color: None,
    }
}

fn style_1() -> RuleStyle {
    RuleStyle {
        foreground_color: Some(Color::Blue),
        background_color: Some(Color::Yellow),
    }
}

#[test]
fn test_style_should_fail_if_no_style_available() {
    let rule = Rule::new(r"", vec![]).unwrap();

    assert_eq!(rule.style(0), None);
    assert_eq!(rule.style(1), None);
}

#[test]
fn test_style_should_succeed_if_style_available() {
    let rule = Rule::new(r"", vec![style_0(), style_1()]).unwrap();

    assert_eq!(rule.style(0), Some(&style_0()));
    assert_eq!(rule.style(1), Some(&style_1()));
    assert_eq!(rule.style(2), None);
}

#[test]
fn test_stylize_should_fail_if_no_match() {
    let rule = Rule::new(r"pattern", vec![style_0()]).unwrap();
    assert_eq!(rule.stylize("this won't match"), None);

    let rule = Rule::new(r"(pattern)", vec![style_0()]).unwrap();
    assert_eq!(rule.stylize("this won't match"), None);
}

#[test]
fn test_stylize_should_return_stylized_string_on_match_if_style_available() {
    colored::control::set_override(true);
    let rule = Rule::new(r"(a) (b) (c)", vec![style_0(), style_1()]).unwrap();
    let styled_a = "a".color(style_0().foreground_color.unwrap());
    let styled_b = "b"
        .color(style_1().foreground_color.unwrap())
        .on_color(style_1().background_color.unwrap());
    let styled_c = "c".clear();

    assert_eq!(
        rule.stylize("a b c"),
        Some(format!("{} {} {}", styled_a, styled_b, styled_c))
    );

    let rule = Rule::new(r">(a) (b) (c)", vec![style_0(), style_1()]).unwrap();
    assert_eq!(
        rule.stylize(">a b c"),
        Some(format!(">{} {} {}", styled_a, styled_b, styled_c))
    );

    let rule = Rule::new(r"(a) (b) (c)<", vec![style_0(), style_1()]).unwrap();
    assert_eq!(
        rule.stylize("a b c<"),
        Some(format!("{} {} {}<", styled_a, styled_b, styled_c))
    );

    let rule = Rule::new(r">(a) (b) (c)<", vec![style_0(), style_1()]).unwrap();
    assert_eq!(
        rule.stylize(">a b c<"),
        Some(format!(">{} {} {}<", styled_a, styled_b, styled_c))
    );
}

#[test]
fn test_stylize_should_return_unstylized_string_on_match_if_no_style_available() {
    let rule = Rule::new(r"(a) (b) (c)", vec![]).unwrap();
    assert_eq!(rule.stylize("a b c"), Some("a b c".to_string()));
}

#[test]
fn test_stylize_should_return_stylized_string_even_with_nested_matches() {
    colored::control::set_override(true);
    let rule = Rule::new(r">(a (b))", vec![style_0(), style_1()]).unwrap();
    assert_eq!(
        rule.stylize(">a b"),
        Some(format!(">{}", "a b".color(style_0().foreground_color.unwrap())))
    );

    let rule = Rule::new(r">(a (b) c) d", vec![style_0(), style_1()]).unwrap();
    assert_eq!(
        rule.stylize(">a b c d"),
        Some(format!(">{} d", "a b c".color(style_0().foreground_color.unwrap())))
    );
}
