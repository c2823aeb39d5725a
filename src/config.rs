use crate::color::{color_from_str, color_of};
use crate::rule::{regex_compiles, Rule, RuleStyle};
use vstd::prelude::*;

verus! {

/// The style of one capture group as written in a configuration: optional
/// `#RRGGBB` colors.
pub struct ConfigStyle {
    pub foreground_color: Option<String>,
    pub background_color: Option<String>,
}

/// A named pattern with the styles of its capture groups.
pub struct ConfigRule {
    pub name: String,
    pub pattern: String,
    pub styles: Vec<ConfigStyle>,
}

/// A named bundle of rules; the name does not affect matching.
pub struct ConfigRuleGroup {
    pub group_name: String,
    pub rules: Vec<ConfigRule>,
}

/// A configuration document: rule groups in document order.
pub struct Config {
    pub rule_groups: Vec<ConfigRuleGroup>,
}

/// The color that an optional configuration string stands for.
pub open spec fn opt_color_of(s: Option<String>) -> Option<colored::Color> {
    match s {
        Some(x) => Some(color_of(x@)),
        None => None,
    }
}

/// The rule style a configuration style stands for.
pub open spec fn rule_style_of(st: ConfigStyle) -> RuleStyle {
    RuleStyle {
        foreground_color: opt_color_of(st.foreground_color),
        background_color: opt_color_of(st.background_color),
    }
}

/// The rules of the first `n` groups, flattened in document order.
pub open spec fn flat_rules(groups: Seq<ConfigRuleGroup>, n: int) -> Seq<ConfigRule>
    decreases n,
{
    if n <= 0 {
        seq![]
    } else {
        flat_rules(groups, n - 1) + groups[n - 1].rules@
    }
}

/// The rules of all groups, flattened in document order.
pub open spec fn all_rules(groups: Seq<ConfigRuleGroup>) -> Seq<ConfigRule> {
    flat_rules(groups, groups.len() as int)
}

/// `rule` was compiled from `cr`.
pub open spec fn compiled_from(rule: Rule, cr: ConfigRule) -> bool {
    &&& rule.pattern_spec() == cr.pattern@
    &&& rule.styles_spec() == cr.styles@.map_values(|st: ConfigStyle| rule_style_of(st))
}

/// Every rule of `rules` compiles.
pub open spec fn all_compile(rules: Seq<ConfigRule>) -> bool {
    forall|k: int| 0 <= k < rules.len() ==> regex_compiles(#[trigger] rules[k].pattern@)
}

fn rule_styles(styles: &Vec<ConfigStyle>) -> (r: Vec<RuleStyle>)
    ensures
        r@ == styles@.map_values(|st: ConfigStyle| rule_style_of(st)),
{
    let mut out: Vec<RuleStyle> = Vec::new();
    let mut i: usize = 0;
    while i < styles.len()
        invariant
            0 <= i <= styles@.len(),
            out@ == styles@.take(i as int).map_values(|st: ConfigStyle| rule_style_of(st)),
        decreases styles@.len() - i,
    {
        let st = &styles[i];
        let fg = match &st.foreground_color {
            Some(c) => Some(color_from_str(c.as_str())),
            None => None,
        };
        let bg = match &st.background_color {
            Some(c) => Some(color_from_str(c.as_str())),
            None => None,
        };
        out.push(RuleStyle { foreground_color: fg, background_color: bg });
        assert(styles@.take(i + 1) =~= styles@.take(i as int).push(styles@[i as int]));
        i += 1;
    }
    assert(styles@.take(i as int) =~= styles@);
    out
}

impl Config {
    /// Compiles every rule of every group, groups in order and rules in
    /// order within a group. Fails with the error of the first pattern that
    /// does not compile.
    pub fn as_rules(&self) -> (r: Result<Vec<Rule>, regex::Error>)
        ensures
            r is Ok <==> all_compile(all_rules(self.rule_groups@)),
            r matches Ok(rules) ==> {
                &&& rules@.len() == all_rules(self.rule_groups@).len()
                &&& forall|k: int|
                    0 <= k < rules@.len() ==> compiled_from(
                        #[trigger] rules@[k],
                        all_rules(self.rule_groups@)[k],
                    )
            },
    {
        let ghost groups = self.rule_groups@;
        let mut rules: Vec<Rule> = Vec::new();
        let mut g: usize = 0;
        while g < self.rule_groups.len()
            invariant
                0 <= g <= groups.len(),
                groups == self.rule_groups@,
                all_compile(flat_rules(groups, g as int)),
                rules@.len() == flat_rules(groups, g as int).len(),
                forall|k: int|
                    0 <= k < rules@.len() ==> compiled_from(
                        #[trigger] rules@[k],
                        flat_rules(groups, g as int)[k],
                    ),
            decreases groups.len() - g,
        {
            let group = &self.rule_groups[g];
            let ghost prev = flat_rules(groups, g as int);
            let mut j: usize = 0;
            while j < group.rules.len()
                invariant
                    0 <= j <= group.rules@.len(),
                    groups == self.rule_groups@,
                    g < groups.len(),
                    *group == groups[g as int],
                    prev == flat_rules(groups, g as int),
                    all_compile(prev + group.rules@.take(j as int)),
                    rules@.len() == prev.len() + j,
                    forall|k: int|
                        0 <= k < rules@.len() ==> compiled_from(
                            #[trigger] rules@[k],
                            (prev + group.rules@.take(j as int))[k],
                        ),
                decreases group.rules@.len() - j,
            {
                let cr = &group.rules[j];
                let styles = rule_styles(&cr.styles);
                let ghost before = rules@;
                match Rule::new(cr.pattern.as_str(), styles) {
                    Ok(rule) => {
                        rules.push(rule);
                    },
                    Err(e) => {
                        proof {
                            let k = prev.len() + j;
                            assert(flat_rules(groups, g + 1) == prev + group.rules@);
                            assert(all_rules(groups)[k] == cr) by {
                                lemma_flat_rules_prefix(groups, g + 1, groups.len() as int, k);
                            }
                            lemma_flat_rules_len(groups, g + 1, groups.len() as int);
                        }
                        return Err(e);
                    },
                }
                assert(prev + group.rules@.take(j + 1) =~= (prev + group.rules@.take(j as int)).push(
                    group.rules@[j as int],
                ));
                j += 1;
            }
            assert(prev + group.rules@.take(j as int) =~= flat_rules(groups, g + 1));
            g += 1;
        }
        Ok(rules)
    }
}

pub open spec fn opt_str_view(s: Option<String>) -> Option<Seq<char>> {
    match s {
        Some(x) => Some(x@),
        None => None,
    }
}

pub open spec fn style_view(st: ConfigStyle) -> (Option<Seq<char>>, Option<Seq<char>>) {
    (opt_str_view(st.foreground_color), opt_str_view(st.background_color))
}

pub open spec fn rule_view(r: ConfigRule) -> (Seq<char>, Seq<char>, Seq<(Option<Seq<char>>, Option<Seq<char>>)>) {
    (r.name@, r.pattern@, r.styles@.map_values(|st: ConfigStyle| style_view(st)))
}

pub open spec fn group_view(g: ConfigRuleGroup) -> (Seq<char>, Seq<(Seq<char>, Seq<char>, Seq<(Option<Seq<char>>, Option<Seq<char>>)>)>) {
    (g.group_name@, g.rules@.map_values(|r: ConfigRule| rule_view(r)))
}

impl View for Config {
    type V = Seq<(Seq<char>, Seq<(Seq<char>, Seq<char>, Seq<(Option<Seq<char>>, Option<Seq<char>>)>)>)>;

    open spec fn view(&self) -> Self::V {
        self.rule_groups@.map_values(|g: ConfigRuleGroup| group_view(g))
    }
}

/// A style with a foreground color only.
fn fg_only(c: &str) -> (r: ConfigStyle)
    ensures
        style_view(r) == (Some(c@), None::<Seq<char>>),
{
    ConfigStyle { foreground_color: Some(c.to_owned()), background_color: None }
}

/// A style with a background color only.
fn bg_only(c: &str) -> (r: ConfigStyle)
    ensures
        style_view(r) == (None::<Seq<char>>, Some(c@)),
{
    ConfigStyle { foreground_color: None, background_color: Some(c.to_owned()) }
}

/// A style with both colors.
fn fg_on_bg(fg: &str, bg: &str) -> (r: ConfigStyle)
    ensures
        style_view(r) == (Some(fg@), Some(bg@)),
{
    ConfigStyle { foreground_color: Some(fg.to_owned()), background_color: Some(bg.to_owned()) }
}

/// The three-group rule that paints a keyword's background and the text
/// around it in one color.
fn keyword_rule(name: &str, pattern: &str, color: &str) -> (r: ConfigRule)
    ensures
        rule_view(r) == (name@, pattern@, seq![
            (Some(color@), None::<Seq<char>>),
            (None::<Seq<char>>, Some(color@)),
            (Some(color@), None::<Seq<char>>),
        ]),
{
    let styles = vec![fg_only(color), bg_only(color), fg_only(color)];
    let r = ConfigRule { name: name.to_owned(), pattern: pattern.to_owned(), styles };
    assert(r.styles@.map_values(|st: ConfigStyle| style_view(st)) =~= seq![
        (Some(color@), None::<Seq<char>>),
        (None::<Seq<char>>, Some(color@)),
        (Some(color@), None::<Seq<char>>),
    ]);
    r
}

/// The example document: errors and warnings in red and yellow, and ISO 8601
/// timestamps.
pub open spec fn example_doc() -> Seq<(Seq<char>, Seq<(Seq<char>, Seq<char>, Seq<(Option<Seq<char>>, Option<Seq<char>>)>)>)> {
    seq![
        ("errors_and_warnings"@, seq![
            ("error"@, "(.*)([eE][rR][rR][oO][rR])(.*)"@, seq![
                (Some("#e73c3e"@), None),
                (None, Some("#e73c3e"@)),
                (Some("#e73c3e"@), None),
            ]),
            ("warning"@, "(.*)([wW][aA][rR][nN][iI][nN][gG])(.*)"@, seq![
                (Some("#f4f454"@), None),
                (None, Some("#f4f454"@)),
                (Some("#f4f454"@), None),
            ]),
        ]),
        ("timestamp"@, seq![
            ("ISO8601"@, "(\\d{4}-[01]\\d-[0-3]\\d)?T([0-2]\\d:[0-5]\\d:[0-5]\\d(\\.\\d+)?)"@, seq![
                (Some("#000000"@), Some("#6fb9f5"@)),
                (Some("#000000"@), Some("#abdafd"@)),
            ]),
        ]),
    ]
}

impl Config {
    /// The example configuration, a starter template.
    pub fn example() -> (r: Config)
        ensures
            r@ == example_doc(),
    {
        let errors = ConfigRuleGroup {
            group_name: "errors_and_warnings".to_owned(),
            rules: vec![
                keyword_rule("error", "(.*)([eE][rR][rR][oO][rR])(.*)", "#e73c3e"),
                keyword_rule("warning", "(.*)([wW][aA][rR][nN][iI][nN][gG])(.*)", "#f4f454"),
            ],
        };
        let timestamp_styles = vec![fg_on_bg("#000000", "#6fb9f5"), fg_on_bg("#000000", "#abdafd")];
        let iso = ConfigRule {
            name: "ISO8601".to_owned(),
            pattern: "(\\d{4}-[01]\\d-[0-3]\\d)?T([0-2]\\d:[0-5]\\d:[0-5]\\d(\\.\\d+)?)".to_owned(),
            styles: timestamp_styles,
        };
        assert(rule_view(iso).2 =~= example_doc()[1].1[0].2);
        let timestamp = ConfigRuleGroup { group_name: "timestamp".to_owned(), rules: vec![iso] };
        assert(group_view(errors).1 =~= example_doc()[0].1);
        assert(group_view(timestamp).1 =~= example_doc()[1].1);
        let r = Config { rule_groups: vec![errors, timestamp] };
        assert(r@ =~= example_doc());
        r
    }
}

/// The parent of a path: the path without its final component, if any.
pub uninterp spec fn path_parent(p: Seq<char>) -> Option<Seq<char>>;

/// A path with another appended to it.
pub uninterp spec fn path_join(base: Seq<char>, tail: Seq<char>) -> Seq<char>;

/// Relies on `std::path::Path::parent`: the path without its final
/// component, none for a root or an empty path; a parent is shorter than
/// its path.
#[verifier::external_body]
fn parent_of(p: &str) -> (r: Option<String>)
    ensures
        opt_str_view(r) == path_parent(p@),
        r matches Some(q) ==> q@.len() < p@.len(),
{
    std::path::Path::new(p).parent().map(|q| q.to_string_lossy().into_owned())
}

/// Relies on `std::path::Path::join`: `tail` appended to `base`.
#[verifier::external_body]
fn join(base: &str, tail: &str) -> (r: String)
    ensures
        r@ == path_join(base@, tail@),
{
    std::path::Path::new(base).join(tail).to_string_lossy().into_owned()
}

/// `p` and its ancestors, nearest first, following at most `n` parents.
pub open spec fn ancestors(p: Seq<char>, n: nat) -> Seq<Seq<char>>
    decreases n,
{
    if n > 0 && path_parent(p) is Some {
        seq![p] + ancestors(path_parent(p).unwrap(), (n - 1) as nat)
    } else {
        seq![p]
    }
}

/// The candidate configuration files of a directory: `filename` in the
/// directory and in each of its ancestors, nearest first.
pub open spec fn candidates(dir: Seq<char>, filename: Seq<char>) -> Seq<Seq<char>> {
    ancestors(dir, dir.len()).map_values(|a: Seq<char>| path_join(a, filename))
}

/// Where configuration files may stand: a directory, taken as canonical
/// (absolute, links resolved), and a file name.
pub struct ConfigPath {
    starting_directory: String,
    filename: String,
}

impl ConfigPath {
    pub closed spec fn dir_spec(&self) -> Seq<char> {
        self.starting_directory@
    }

    pub closed spec fn filename_spec(&self) -> Seq<char> {
        self.filename@
    }

    /// The places of `filename` from `starting_directory`, which the caller
    /// has made canonical.
    pub fn new(starting_directory: &str, filename: &str) -> (r: ConfigPath)
        ensures
            r.dir_spec() == starting_directory@,
            r.filename_spec() == filename@,
    {
        ConfigPath { starting_directory: starting_directory.to_owned(), filename: filename.to_owned() }
    }

    /// Every candidate file path, from the starting directory up to the
    /// root; the caller keeps those that are regular files.
    pub fn iter(&self) -> (r: Vec<String>)
        ensures
            r@.map_values(|s: String| s@) == candidates(self.dir_spec(), self.filename_spec()),
    {
        let ghost total = candidates(self.dir_spec(), self.filename_spec());
        let ghost fname = self.filename@;
        let mut out: Vec<String> = Vec::new();
        let mut cur: String = self.starting_directory.clone();
        let ghost mut fuel: nat = cur@.len();
        loop
            invariant
                cur@.len() <= fuel,
                fname == self.filename@,
                total == candidates(self.dir_spec(), self.filename_spec()),
                out@.map_values(|s: String| s@) + ancestors(cur@, fuel).map_values(
                    |a: Seq<char>| path_join(a, fname),
                ) == total,
            decreases cur@.len(),
        {
            let ghost before = out@.map_values(|s: String| s@);
            let ghost rest = ancestors(cur@, fuel);
            let path = join(cur.as_str(), self.filename.as_str());
            out.push(path);
            assert(out@.map_values(|s: String| s@) =~= before.push(path_join(cur@, fname)));
            match parent_of(cur.as_str()) {
                Some(q) => {
                    proof {
                        assert(rest =~= seq![cur@] + ancestors(q@, (fuel - 1) as nat));
                        assert(rest.map_values(|a: Seq<char>| path_join(a, fname)) =~= seq![
                            path_join(cur@, fname),
                        ] + ancestors(q@, (fuel - 1) as nat).map_values(
                            |a: Seq<char>| path_join(a, fname),
                        ));
                        fuel = (fuel - 1) as nat;
                    }
                    assert(out@.map_values(|s: String| s@) + ancestors(q@, fuel).map_values(
                        |a: Seq<char>| path_join(a, fname),
                    ) =~= total);
                    cur = q;
                },
                None => {
                    assert(rest =~= seq![cur@]);
                    assert(out@.map_values(|s: String| s@) =~= total);
                    return out;
                },
            }
        }
    }
}

/// The first `n` groups' rules open the first `m` groups' rules, for `n <= m`.
proof fn lemma_flat_rules_prefix(groups: Seq<ConfigRuleGroup>, n: int, m: int, k: int)
    requires
        0 <= n <= m,
        0 <= k < flat_rules(groups, n).len(),
    ensures
        k < flat_rules(groups, m).len(),
        flat_rules(groups, m)[k] == flat_rules(groups, n)[k],
    decreases m - n,
{
    if n < m {
        lemma_flat_rules_prefix(groups, n, m - 1, k);
    }
}

proof fn lemma_flat_rules_len(groups: Seq<ConfigRuleGroup>, n: int, m: int)
    requires
        0 <= n <= m,
    ensures
        flat_rules(groups, n).len() <= flat_rules(groups, m).len(),
    decreases m - n,
{
    if n < m {
        lemma_flat_rules_len(groups, n, m - 1);
    }
}

} // verus!
