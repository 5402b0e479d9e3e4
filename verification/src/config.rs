//! The configuration of a run and the header sets that it asks for.

use crate::axes::{
    add_axis_value, add_rules, add_value, add_values, axes_wf, axis_index, axis_values,
    header_set, header_sets, lemma_add_value_wf, lemma_add_values_wf, lemma_axis_index,
    lemma_header_sets_complete, lemma_header_sets_distinct, lemma_header_sets_len,
    lemma_set_value_wf, set_axis_value, set_value, values_of, Axis, AxisView,
};
use crate::combine::{
    cartesian_product, checked_product_len, clone_texts, contains_text, first_occurrences,
    is_combination, lemma_product_entry, lemma_product_len, lemma_product_len_push, product,
    product_len,
};
use crate::header::{
    is_header_name, is_header_text, is_header_value, is_name_text, lemma_lower_text_is_name,
    lower_text, parse_name, parse_value, HeaderVariation, APP_USER_AGENT,
};
use crate::languages::{
    language_values, language_variations, languages_fit, languages_wf, lemma_no_language_values,
    tags_fit,
};
use vstd::prelude::*;
use vstd::string::StringExecFns;

verus! {

/// `num_cpus::get`: the number of processors that this process may use, which
/// is never less than one.
#[verifier::external_body]
fn available_processors() -> (r: usize)
    ensures
        r >= 1,
{
    num_cpus::get()
}

/// The name of the header that identifies this program.
pub open spec fn user_agent_name() -> Seq<char> {
    "user-agent"@
}

/// The name of the header that carries the language tags.
pub open spec fn accept_language_name() -> Seq<char> {
    "accept-language"@
}

/// The axes of a run: the header rules, with the program's identification
/// as the only value of `user-agent`, and with the language values added to
/// `accept-language`.
pub open spec fn variation_axes(axes: Seq<AxisView>, tags: Seq<Seq<char>>) -> Seq<AxisView> {
    add_values(
        set_value(axes, user_agent_name(), APP_USER_AGENT@),
        accept_language_name(),
        language_values(tags),
    )
}

/// The two fixed names are stored names, and the identification is a value.
pub proof fn lemma_fixed_headers()
    ensures
        is_header_name(user_agent_name()),
        is_header_name(accept_language_name()),
        is_header_value(APP_USER_AGENT@),
        user_agent_name() != accept_language_name(),
{
    reveal_strlit("user-agent");
    reveal_strlit("accept-language");
    reveal_strlit("heater 0.2.3");
    let u = user_agent_name();
    let a = accept_language_name();
    assert(lower_text(u) =~= u);
    assert(lower_text(a) =~= a);
}

/// Without header rules and language tags a run has exactly one header
/// set, which holds the identification of this program and nothing else.
pub proof fn lemma_baseline_only()
    ensures
        header_sets(variation_axes(Seq::empty(), Seq::empty())) == seq![
            seq![(user_agent_name(), APP_USER_AGENT@)],
        ],
{
    lemma_no_language_values();
    let axes = variation_axes(Seq::empty(), Seq::empty());
    let values = axis_values(axes);
    assert(product(values) =~= seq![seq![APP_USER_AGENT@]]) by {
        let rest = product(values.drop_first());
        assert(values[0].len() * rest.len() == 1) by (nonlinear_arith)
            requires
                values[0].len() == 1,
                rest.len() == 1,
        ;
    }
    let sets = header_sets(axes);
    assert(sets[0] =~= seq![(user_agent_name(), APP_USER_AGENT@)]);
}

/// Without language tags, and with no rule for `user-agent`, a run has as
/// many header sets as the product of the rules' numbers of values.
pub proof fn lemma_count_without_languages(axes: Seq<AxisView>)
    requires
        axis_index(axes, user_agent_name()) == axes.len(),
    ensures
        header_sets(variation_axes(axes, Seq::empty())).len() == product_len(axis_values(axes)),
{
    lemma_no_language_values();
    let run = variation_axes(axes, Seq::empty());
    lemma_header_sets_len(run);
    lemma_product_len_push(axis_values(axes), seq![APP_USER_AGENT@]);
    assert(axis_values(run) =~= axis_values(axes).push(seq![APP_USER_AGENT@]));
    assert(product_len(axis_values(axes)) * 1 == product_len(axis_values(axes)))
        by (nonlinear_arith);
}

/// With one header of `a` values and another of `b` values, neither of them
/// `user-agent`, and without language tags, a run has `a * b` header sets;
/// no two of them are the same, and each choice of one value for each
/// header is among them.
pub proof fn lemma_two_headers(
    first: Seq<char>,
    first_values: Seq<Seq<char>>,
    second: Seq<char>,
    second_values: Seq<Seq<char>>,
)
    requires
        axes_wf(seq![(first, first_values), (second, second_values)]),
        first != user_agent_name(),
        second != user_agent_name(),
    ensures
        ({
            let axes = seq![(first, first_values), (second, second_values)];
            let sets = header_sets(variation_axes(axes, Seq::empty()));
            &&& sets.len() == first_values.len() * second_values.len()
            &&& sets.no_duplicates()
            &&& forall|x: Seq<char>, y: Seq<char>|
                first_values.contains(x) && second_values.contains(y) ==> sets.contains(
                    seq![(first, x), (second, y), (user_agent_name(), APP_USER_AGENT@)],
                )
        }),
{
    let axes = seq![(first, first_values), (second, second_values)];
    lemma_axis_index(axes, user_agent_name(), 2);
    lemma_count_without_languages(axes);
    lemma_no_language_values();
    lemma_fixed_headers();
    let run = variation_axes(axes, Seq::empty());
    lemma_header_sets_distinct(run);
    let values = axis_values(axes);
    assert(product_len(values) == first_values.len() * second_values.len()) by {
        assert(product_len(values.drop_first().drop_first()) == 1);
        assert(product_len(values.drop_first()) == second_values.len() * 1);
    }
    let sets = header_sets(run);
    assert forall|x: Seq<char>, y: Seq<char>|
        first_values.contains(x) && second_values.contains(y) implies sets.contains(
        seq![(first, x), (second, y), (user_agent_name(), APP_USER_AGENT@)],
    ) by {
        let choice = seq![x, y, APP_USER_AGENT@];
        assert forall|j: int| 0 <= j < axis_values(run).len() implies (#[trigger] axis_values(
            run,
        )[j]).contains(choice[j]) by {
            if j == 2 {
                assert(axis_values(run)[j][0] == APP_USER_AGENT@);
            }
        }
        lemma_header_sets_complete(run, choice);
        assert(header_set(run, choice) =~= seq![
            (first, x),
            (second, y),
            (user_agent_name(), APP_USER_AGENT@),
        ]);
    }
}

/// Two runs of the same rules and tags have the same header sets.
pub proof fn lemma_same_input_same_sets(first: Config, second: Config)
    requires
        first.axes() == second.axes(),
        first.languages() == second.languages(),
    ensures
        first.variations() == second.variations(),
        first.variations().to_set() == second.variations().to_set(),
{
}

/// What a run works with: how many requests may be under way at once, the
/// header rules and the language tags.
#[derive(Debug)]
pub struct Config {
    /// How many requests may be under way at once.
    pub concurrent_requests: usize,
    header_variations: Vec<Axis>,
    languages: Vec<String>,
}

impl Config {
    /// The header rules: each header in the order in which it came first,
    /// with its values in the order in which they came.
    pub closed spec fn axes(&self) -> Seq<AxisView> {
        self.header_variations.deep_view()
    }

    /// The language tags in the order in which they came.
    pub closed spec fn languages(&self) -> Seq<Seq<char>> {
        self.languages.deep_view()
    }

    /// How many requests may be under way at once.
    pub closed spec fn concurrency(&self) -> usize {
        self.concurrent_requests
    }

    /// No header rule and no language tag stands twice, and each can be sent.
    pub open spec fn wf(&self) -> bool {
        axes_wf(self.axes()) && languages_wf(self.languages())
    }

    /// The header sets of a run, in the order in which they are made.
    pub open spec fn variations(&self) -> Seq<Seq<(Seq<char>, Seq<char>)>> {
        header_sets(variation_axes(self.axes(), self.languages()))
    }

    /// Whether the header sets of a run can be counted in a `usize`, and the
    /// rows of language tags that are written down on the way.
    pub open spec fn fits(&self) -> bool {
        &&& languages_fit(self.languages())
        &&& product_len(axis_values(variation_axes(self.axes(), self.languages()))) <= usize::MAX
    }

    /// How many requests may be under way at once.
    pub fn concurrency_limit(&self) -> (n: usize)
        ensures
            n == self.concurrency(),
    {
        self.concurrent_requests
    }

    /// Sets how many requests may be under way at once.
    pub fn set_concurrent_requests(&mut self, limit: usize)
        ensures
            final(self).concurrency() == limit,
            final(self).axes() == old(self).axes(),
            final(self).languages() == old(self).languages(),
    {
        self.concurrent_requests = limit;
    }

    /// A configuration without rules or tags, for as many requests at once
    /// as this machine has processors.
    pub fn new() -> (r: Self)
        ensures
            r.wf(),
            r.axes() == Seq::<AxisView>::empty(),
            r.languages() == Seq::<Seq<char>>::empty(),
            r.concurrency() >= 1,
    {
        let r = Config {
            concurrent_requests: available_processors(),
            header_variations: Vec::new(),
            languages: Vec::new(),
        };
        r
    }

    /// Adds one value to replay `header` with. The name, which must be a
    /// header name, is stored in lower case; the value, which must be a
    /// header value, is not added again where the header has it already.
    pub fn add_header_variation(&mut self, header: &str, value: &str)
        requires
            old(self).wf(),
            is_name_text(header@),
            is_header_value(value@),
        ensures
            final(self).wf(),
            final(self).axes() == add_value(old(self).axes(), lower_text(header@), value@),
            final(self).languages() == old(self).languages(),
            final(self).concurrency() == old(self).concurrency(),
    {
        proof {
            lemma_lower_text_is_name(header@);
            lemma_add_value_wf(self.axes(), lower_text(header@), value@);
        }
        match (parse_name(header), parse_value(value)) {
            (Ok(name), Ok(text)) => {
                add_axis_value(&mut self.header_variations, name, text);
            },
            _ => {},
        }
    }

    /// Adds a language tag, which must be header text, unless the
    /// configuration has it already.
    pub fn add_language_variation(&mut self, language: &str)
        requires
            old(self).wf(),
            is_header_text(language@),
        ensures
            final(self).wf(),
            final(self).languages() == if old(self).languages().contains(language@) {
                old(self).languages()
            } else {
                old(self).languages().push(language@)
            },
            final(self).axes() == old(self).axes(),
            final(self).concurrency() == old(self).concurrency(),
    {
        match parse_value(language) {
            Ok(tag) => {
                if !contains_text(&self.languages, &tag) {
                    let ghost before = self.languages.deep_view();
                    self.languages.push(tag);
                    assert(self.languages.deep_view() =~= before.push(language@));
                }
            },
            Err(_) => {},
        }
    }

    /// The configuration that holds the given rules and tags, each added in turn.
    pub fn new_from_arguments(
        header_variations: &Vec<HeaderVariation>,
        languages: &Vec<String>,
    ) -> (r: Self)
        requires
            forall|i: int|
                0 <= i < header_variations.len() ==> (#[trigger] header_variations[i]).wf(),
            forall|i: int| 0 <= i < languages.len() ==> is_header_text((#[trigger] languages[i])@),
        ensures
            r.wf(),
            r.axes() == add_rules(Seq::empty(), header_variations.deep_view()),
            r.languages() == first_occurrences(languages.deep_view()),
            r.concurrency() >= 1,
    {
        let mut config = Config::new();
        let mut i: usize = 0;
        while i < header_variations.len()
            invariant
                i <= header_variations.len(),
                config.wf(),
                config.axes() == add_rules(
                    Seq::empty(),
                    header_variations.deep_view().take(i as int),
                ),
                config.languages() == Seq::<Seq<char>>::empty(),
                config.concurrency() >= 1,
                forall|i: int|
                    0 <= i < header_variations.len() ==> (#[trigger] header_variations[i]).wf(),
            decreases header_variations.len() - i,
        {
            let rule = &header_variations[i];
            proof {
                let rules = header_variations.deep_view();
                assert(rules.take(i + 1).drop_last() =~= rules.take(i as int));
            }
            config.add_header_variation(rule.header.as_str(), rule.value.as_str());
            i += 1;
        }
        assert(header_variations.deep_view().take(i as int) =~= header_variations.deep_view());
        let mut k: usize = 0;
        while k < languages.len()
            invariant
                k <= languages.len(),
                config.wf(),
                config.axes() == add_rules(Seq::empty(), header_variations.deep_view()),
                config.languages() == first_occurrences(languages.deep_view().take(k as int)),
                config.concurrency() >= 1,
                forall|i: int|
                    0 <= i < languages.len() ==> is_header_text((#[trigger] languages[i])@),
            decreases languages.len() - k,
        {
            proof {
                let tags = languages.deep_view();
                assert(tags.take(k + 1).drop_last() =~= tags.take(k as int));
            }
            config.add_language_variation(languages[k].as_str());
            k += 1;
        }
        assert(languages.deep_view().take(k as int) =~= languages.deep_view());
        config
    }

    /// Whether `generate_language_variations` can count the rows of tags that
    /// it writes down.
    pub fn languages_fit(&self) -> (r: bool)
        requires
            self.wf(),
        ensures
            r == languages_fit(self.languages()),
    {
        tags_fit(&self.languages)
    }

    /// The values of the `accept-language` axis.
    pub fn generate_language_variations(&self) -> (r: Vec<String>)
        requires
            self.wf(),
            languages_fit(self.languages()),
        ensures
            r.deep_view() == language_values(self.languages()),
            forall|i: int| 0 <= i < r.len() ==> is_header_text(#[trigger] r.deep_view()[i]),
    {
        language_variations(&self.languages)
    }

    /// The axes of a run.
    fn run_axes(&self) -> (r: Vec<Axis>)
        requires
            self.wf(),
            languages_fit(self.languages()),
        ensures
            r.deep_view() == variation_axes(self.axes(), self.languages()),
            axes_wf(r.deep_view()),
    {
        let mut axes: Vec<Axis> = Vec::new();
        let mut i: usize = 0;
        while i < self.header_variations.len()
            invariant
                i <= self.header_variations.len(),
                axes.len() == i,
                forall|k: int|
                    0 <= k < i ==> (#[trigger] axes.deep_view()[k])
                        == self.header_variations.deep_view()[k],
            decreases self.header_variations.len() - i,
        {
            let ghost before = axes.deep_view();
            let axis = &self.header_variations[i];
            let copy = Axis { name: axis.name.clone(), values: clone_texts(&axis.values) };
            axes.push(copy);
            assert(axes.deep_view() =~= before.push(self.header_variations.deep_view()[i as int]));
            i += 1;
        }
        assert(axes.deep_view() =~= self.axes());
        set_axis_value(
            &mut axes,
            String::from_str("user-agent"),
            String::from_str(APP_USER_AGENT),
        );
        let ghost base = axes.deep_view();
        let languages = self.generate_language_variations();
        let ghost values = languages.deep_view();
        proof {
            lemma_fixed_headers();
            lemma_set_value_wf(self.axes(), user_agent_name(), APP_USER_AGENT@);
        }
        let mut k: usize = 0;
        while k < languages.len()
            invariant
                k <= languages.len(),
                values == languages.deep_view(),
                axes.deep_view() == add_values(base, accept_language_name(), values.take(k as int)),
            decreases languages.len() - k,
        {
            proof {
                assert(values.take(k + 1).drop_last() =~= values.take(k as int));
            }
            add_axis_value(&mut axes, String::from_str("accept-language"), languages[k].clone());
            k += 1;
        }
        proof {
            assert(values.take(k as int) =~= values);
            lemma_add_values_wf(base, accept_language_name(), values);
        }
        axes
    }

    /// Whether the header sets of a run can be counted: what
    /// `generate_header_variations` and `possible_variations` ask for.
    pub fn variations_fit(&self) -> (r: bool)
        requires
            self.wf(),
        ensures
            r == self.fits(),
    {
        if !self.languages_fit() {
            return false;
        }
        let axes = self.run_axes();
        let values = values_of(&axes);
        checked_product_len(&values).is_some()
    }

    /// The number of header sets of a run.
    pub fn possible_variations(&self) -> (r: u64)
        requires
            self.wf(),
            self.fits(),
        ensures
            r == self.variations().len(),
    {
        self.generate_header_variations().len() as u64
    }

    /// The header sets of a run: one for each way to take one value from
    /// each axis, the axes in the order of `variation_axes`, the last axis
    /// changing from one set to the next.
    pub fn generate_header_variations(&self) -> (r: Vec<Vec<HeaderVariation>>)
        requires
            self.wf(),
            self.fits(),
        ensures
            r.deep_view() == self.variations(),
            forall|i: int, j: int|
                0 <= i < r.len() && 0 <= j < r[i].len() ==> (#[trigger] r[i][j]).wf(),
    {
        let axes = self.run_axes();
        let ghost run = axes.deep_view();
        let choices = cartesian_product(values_of(&axes));
        let ghost rows = product(axis_values(run));
        proof {
            lemma_product_len(axis_values(run));
        }
        let mut sets: Vec<Vec<HeaderVariation>> = Vec::new();
        let mut i: usize = 0;
        while i < choices.len()
            invariant
                i <= choices.len(),
                run == axes.deep_view(),
                axes_wf(run),
                choices.deep_view() == rows,
                rows == product(axis_values(run)),
                rows.len() == product_len(axis_values(run)),
                sets.len() == i,
                forall|k: int|
                    0 <= k < i ==> (#[trigger] sets.deep_view()[k]) == header_set(run, rows[k]),
                forall|k: int, j: int|
                    0 <= k < i && 0 <= j < sets[k].len() ==> (#[trigger] sets[k][j]).wf(),
            decreases choices.len() - i,
        {
            let choice = &choices[i];
            let ghost row = rows[i as int];
            proof {
                lemma_product_entry(axis_values(run), i as int);
            }
            let mut set: Vec<HeaderVariation> = Vec::new();
            let mut j: usize = 0;
            while j < axes.len()
                invariant
                    j <= axes.len(),
                    run == axes.deep_view(),
                    axes_wf(run),
                    choice.deep_view() == row,
                    row.len() == axes.len(),
                    is_combination(axis_values(run), row),
                    set.len() == j,
                    forall|k: int|
                        0 <= k < j ==> (#[trigger] set.deep_view()[k]) == (run[k].0, row[k]),
                    forall|k: int| 0 <= k < j ==> (#[trigger] set[k]).wf(),
                decreases axes.len() - j,
            {
                let ghost before = set.deep_view();
                let header = axes[j].name.clone();
                let value = choice[j].clone();
                proof {
                    assert(axis_values(run)[j as int].contains(row[j as int]));
                }
                set.push(HeaderVariation { header, value });
                assert(set.deep_view() =~= before.push((run[j as int].0, row[j as int])));
                j += 1;
            }
            assert(set.deep_view() =~= header_set(run, row));
            let ghost before = sets.deep_view();
            sets.push(set);
            assert(sets.deep_view() =~= before.push(header_set(run, row)));
            i += 1;
        }
        sets
    }
}

} // verus!
