use vstd::prelude::*;

verus! {

/// The characters of an optional string.
pub open spec fn opt_chars(r: Option<String>) -> Option<Seq<char>> {
    match r {
        Some(x) => Some(x@),
        None => None,
    }
}

/// Something that may produce a styled copy of a line.
pub trait Stylize {
    /// The styled copy of `s`, or `None` when this does not apply to `s`.
    /// An implementation that does not say leaves it unknown.
    closed spec fn stylize_spec(&self, s: Seq<char>) -> Option<Seq<char>> {
        arbitrary()
    }

    fn stylize(&self, s: &str) -> (r: Option<String>)
        ensures
            opt_chars(r) == self.stylize_spec(s@),
    ;
}

/// The outcome of the first of `outcomes` that is not `None`.
pub open spec fn first_some(outcomes: Seq<Option<Seq<char>>>) -> Option<Seq<char>>
    decreases outcomes.len(),
{
    if outcomes.len() == 0 {
        None
    } else if outcomes[0] is Some {
        outcomes[0]
    } else {
        first_some(outcomes.drop_first())
    }
}

/// What each member of `items` makes of `s`, in order.
pub open spec fn outcomes<T: Stylize>(items: Seq<T>, s: Seq<char>) -> Seq<Option<Seq<char>>> {
    items.map_values(|t: T| t.stylize_spec(s))
}

impl<T: Stylize> Stylize for [T] {
    open spec fn stylize_spec(&self, s: Seq<char>) -> Option<Seq<char>> {
        first_some(outcomes(self@, s))
    }

    fn stylize(&self, s: &str) -> (r: Option<String>) {
        let ghost all = outcomes(self@, s@);
        let mut i: usize = 0;
        assert(all.subrange(0, all.len() as int) =~= all);
        while i < self.len()
            invariant
                0 <= i <= self@.len(),
                all == outcomes(self@, s@),
                first_some(all) == first_some(all.subrange(i as int, all.len() as int)),
            decreases self@.len() - i,
        {
            let ghost rest = all.subrange(i as int, all.len() as int);
            assert(rest[0] == self@[i as int].stylize_spec(s@));
            if let Some(stylized) = self[i].stylize(s) {
                return Some(stylized);
            }
            assert(rest.drop_first() =~= all.subrange(i + 1, all.len() as int));
            i += 1;
        }
        None
    }
}

/// The line to print for `line`: the first styled copy that `rules` give,
/// or `line` itself when none applies.
pub fn filter_line<T: Stylize>(rules: &[T], line: &str) -> (r: String)
    ensures
        r@ == match first_some(outcomes(rules@, line@)) {
            Some(x) => x,
            None => line@,
        },
{
    match rules.stylize(line) {
        Some(x) => x,
        None => line.to_owned(),
    }
}

/// When no rule applies to a line, the selection gives no result, so the
/// line is printed unchanged.
pub proof fn lemma_pass_through<T: Stylize>(rules: Seq<T>, line: Seq<char>)
    requires
        forall|k: int| 0 <= k < rules.len() ==> (#[trigger] rules[k].stylize_spec(line)) is None,
    ensures
        first_some(outcomes(rules, line)) is None,
    decreases rules.len(),
{
    if rules.len() > 0 {
        assert(outcomes(rules, line).drop_first() =~= outcomes(rules.drop_first(), line));
        assert forall|k: int| 0 <= k < rules.drop_first().len() implies (
        #[trigger] rules.drop_first()[k].stylize_spec(line)) is None by {
            assert(rules.drop_first()[k] == rules[k + 1]);
        }
        lemma_pass_through(rules.drop_first(), line);
    }
}

/// The first rule that applies to a line decides the output: later rules
/// are not consulted.
pub proof fn lemma_first_match_wins<T: Stylize>(rules: Seq<T>, line: Seq<char>, k: int)
    requires
        0 <= k < rules.len(),
        rules[k].stylize_spec(line) is Some,
        forall|j: int| 0 <= j < k ==> (#[trigger] rules[j].stylize_spec(line)) is None,
    ensures
        first_some(outcomes(rules, line)) == rules[k].stylize_spec(line),
    decreases k,
{
    assert(outcomes(rules, line).drop_first() =~= outcomes(rules.drop_first(), line));
    if k > 0 {
        assert forall|j: int| 0 <= j < k - 1 implies (
        #[trigger] rules.drop_first()[j].stylize_spec(line)) is None by {
            assert(rules.drop_first()[j] == rules[j + 1]);
        }
        lemma_first_match_wins(rules.drop_first(), line, k - 1);
    }
}

/// A member that does not apply to a line does not block the members after
/// it.
pub proof fn lemma_skip_inapplicable<T: Stylize>(first: T, rest: Seq<T>, line: Seq<char>)
    requires
        first.stylize_spec(line) is None,
    ensures
        first_some(outcomes(seq![first] + rest, line)) == first_some(outcomes(rest, line)),
{
    assert(outcomes(seq![first] + rest, line).drop_first() =~= outcomes(rest, line));
}

} // verus!
