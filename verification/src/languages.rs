//! The values of the `accept-language` axis: the language tags in every
//! order.

use crate::combine::{
    cartesian_product, checked_product_len, clone_texts, first_occurrences, join, join_texts,
    lemma_distinct_len, lemma_first_occurrences, lemma_first_occurrences_head, lemma_join_len,
    lemma_padded, lemma_product_complete, lemma_product_entry, lemma_product_len,
    lemma_same_items, lemma_sorted_texts_unique, lemma_text_order_total, padded, product,
    product_len, repeated, sorted, sorted_texts, text_order, unique,
};
use crate::header::{is_blank, is_blank_text, is_header_text};
use vstd::prelude::*;

verus! {

/// Language tags that are header text, each once.
pub open spec fn languages_wf(tags: Seq<Seq<char>>) -> bool {
    &&& tags.no_duplicates()
    &&& forall|i: int| 0 <= i < tags.len() ==> is_header_text(#[trigger] tags[i])
}

/// The texts that are not blank.
pub open spec fn not_blank() -> spec_fn(Seq<char>) -> bool {
    |t: Seq<char>| !is_blank(t)
}

/// The tags that name a language, in ascending order.
pub open spec fn named_tags(tags: Seq<Seq<char>>) -> Seq<Seq<char>> {
    sorted_texts(tags).filter(not_blank())
}

/// Whether one of the tags is blank, which stands for no preference.
pub open spec fn has_blank(tags: Seq<Seq<char>>) -> bool {
    exists|i: int| 0 <= i < tags.len() && is_blank(#[trigger] tags[i])
}

/// The `accept-language` value of a choice of tags: each tag once, where it
/// stands first, with a comma and a space between two tags.
pub open spec fn arrangement(choice: Seq<Seq<char>>) -> Seq<char> {
    join(first_occurrences(choice), ", "@)
}

/// The values that `n` named tags give: one for each way to write `n` of
/// them in a row, each value once.
pub open spec fn arrangements(named: Seq<Seq<char>>) -> Seq<Seq<char>> {
    if named.len() == 0 {
        Seq::empty()
    } else {
        first_occurrences(
            product(repeated(named, named.len())).map_values(|c: Seq<Seq<char>>| arrangement(c)),
        )
    }
}

/// The values of the `accept-language` axis: the empty value where a tag is
/// blank, then the arrangements of the named tags.
pub open spec fn language_values(tags: Seq<Seq<char>>) -> Seq<Seq<char>> {
    let head = if has_blank(tags) {
        seq![Seq::<char>::empty()]
    } else {
        Seq::<Seq<char>>::empty()
    };
    head + arrangements(named_tags(tags))
}

/// Whether the rows of named tags can be counted in a `usize`.
pub open spec fn languages_fit(tags: Seq<Seq<char>>) -> bool {
    product_len(repeated(named_tags(tags), named_tags(tags).len())) <= usize::MAX
}

/// Parts of header text that are joined with a comma and a space are header text.
pub proof fn lemma_join_is_text(parts: Seq<Seq<char>>)
    requires
        forall|i: int| 0 <= i < parts.len() ==> is_header_text(#[trigger] parts[i]),
    ensures
        is_header_text(join(parts, ", "@)),
    decreases parts.len(),
{
    reveal_strlit(", ");
    if parts.len() > 1 {
        let init = parts.drop_last();
        lemma_join_is_text(init);
    }
}

/// No value of the `accept-language` axis comes twice, and only the value
/// for a blank tag is empty.
pub proof fn lemma_language_values_distinct(tags: Seq<Seq<char>>)
    ensures
        language_values(tags).no_duplicates(),
        forall|i: int|
            0 <= i < arrangements(named_tags(tags)).len() ==> (#[trigger] arrangements(
                named_tags(tags),
            )[i]).len() > 0,
{
    let named = named_tags(tags);
    let tail = arrangements(named);
    if named.len() > 0 {
        let rows = product(repeated(named, named.len()));
        let values = rows.map_values(|c: Seq<Seq<char>>| arrangement(c));
        lemma_first_occurrences(values);
        lemma_product_len(repeated(named, named.len()));
        assert forall|i: int| 0 <= i < tail.len() implies (#[trigger] tail[i]).len() > 0 by {
            assert(values.contains(tail[i]));
            let k = choose|k: int| 0 <= k < values.len() && values[k] == tail[i];
            lemma_product_entry(repeated(named, named.len()), k);
            let row = rows[k];
            let at = choose|at: int| 0 <= at < named.len() && named[at] == row[0];
            sorted_texts(tags).lemma_filter_pred(not_blank(), at);
            lemma_first_occurrences_head(row);
            lemma_join_len(first_occurrences(row), ", "@);
        }
    }
}

/// Every way to write some of the named tags in a row, each at most once,
/// is a value of the `accept-language` axis.
pub proof fn lemma_every_order_appears(tags: Seq<Seq<char>>, order: Seq<Seq<char>>)
    requires
        order.len() > 0,
        order.no_duplicates(),
        forall|i: int| 0 <= i < order.len() ==> named_tags(tags).contains(#[trigger] order[i]),
    ensures
        language_values(tags).contains(join(order, ", "@)),
{
    let named = named_tags(tags);
    lemma_distinct_len(order, named);
    let n = named.len();
    let row = padded(order, (n - order.len()) as nat);
    lemma_padded(order, (n - order.len()) as nat);
    let axes = repeated(named, n);
    lemma_product_complete(axes, row);
    let rows = product(axes);
    let at = choose|at: int| 0 <= at < rows.len() && rows[at] == row;
    let values = rows.map_values(|c: Seq<Seq<char>>| arrangement(c));
    assert(values[at] == join(order, ", "@));
    assert(values.contains(join(order, ", "@)));
    lemma_first_occurrences(values);
    let tail = arrangements(named);
    let k = choose|k: int| 0 <= k < tail.len() && tail[k] == join(order, ", "@);
    let all = language_values(tags);
    if has_blank(tags) {
        assert(all[k + 1] == tail[k]);
    }
}

/// Every value of the `accept-language` axis but the empty one for a blank
/// tag writes some of the named tags in a row, each at most once.
pub proof fn lemma_values_are_orders(tags: Seq<Seq<char>>, i: int) -> (order: Seq<Seq<char>>)
    requires
        0 <= i < arrangements(named_tags(tags)).len(),
    ensures
        arrangements(named_tags(tags))[i] == join(order, ", "@),
        order.len() > 0,
        order.no_duplicates(),
        forall|k: int| 0 <= k < order.len() ==> named_tags(tags).contains(#[trigger] order[k]),
{
    let named = named_tags(tags);
    let tail = arrangements(named);
    let axes = repeated(named, named.len());
    let rows = product(axes);
    let values = rows.map_values(|c: Seq<Seq<char>>| arrangement(c));
    lemma_first_occurrences(values);
    lemma_product_len(axes);
    assert(values.contains(tail[i]));
    let at = choose|at: int| 0 <= at < values.len() && values[at] == tail[i];
    let row = rows[at];
    lemma_product_entry(axes, at);
    lemma_first_occurrences(row);
    let order = first_occurrences(row);
    assert forall|k: int| 0 <= k < order.len() implies named.contains(#[trigger] order[k]) by {
        assert(row.contains(order[k]));
        let j = choose|j: int| 0 <= j < row.len() && row[j] == order[k];
        assert(axes[j].contains(row[j]));
    }
    order
}

/// Without language tags the `accept-language` axis gets no value.
pub proof fn lemma_no_language_values()
    ensures
        language_values(Seq::<Seq<char>>::empty()) == Seq::<Seq<char>>::empty(),
{
    let none = Seq::<Seq<char>>::empty();
    lemma_text_order_total();
    none.lemma_sort_by_ensures(text_order());
    lemma_same_items(none, sorted_texts(none));
}

/// The named tags in ascending order, and whether a tag is blank.
fn split_languages(tags: &Vec<String>) -> (r: (bool, Vec<String>))
    requires
        languages_wf(tags.deep_view()),
    ensures
        r.0 == has_blank(tags.deep_view()),
        r.1.deep_view() == named_tags(tags.deep_view()),
        forall|i: int| 0 <= i < r.1.len() ==> is_header_text(#[trigger] r.1.deep_view()[i]),
{
    let in_order = sorted(clone_texts(tags));
    let ghost given = tags.deep_view();
    let ghost ordered = in_order.deep_view();
    proof {
        lemma_sorted_texts_unique(given, ordered);
        lemma_same_items(ordered, given);
        assert forall|i: int| 0 <= i < ordered.len() implies is_header_text(
            #[trigger] ordered[i],
        ) by {
            assert(ordered.contains(ordered[i]));
        }
    }
    let mut blank = false;
    let mut named: Vec<String> = Vec::new();
    let mut i: usize = 0;
    while i < in_order.len()
        invariant
            i <= in_order.len(),
            ordered == in_order.deep_view(),
            blank == (exists|k: int| 0 <= k < i && is_blank(#[trigger] ordered[k])),
            named.deep_view() == ordered.take(i as int).filter(not_blank()),
            forall|k: int| 0 <= k < ordered.len() ==> is_header_text(#[trigger] ordered[k]),
            forall|k: int|
                0 <= k < named.len() ==> is_header_text(#[trigger] named.deep_view()[k]),
        decreases in_order.len() - i,
    {
        let ghost before = named.deep_view();
        proof {
            assert(ordered.take(i + 1) =~= ordered.take(i as int).push(ordered[i as int]));
            ordered.take(i as int).lemma_filter_push(ordered[i as int], not_blank());
        }
        if is_blank_text(in_order[i].as_str()) {
            blank = true;
        } else {
            named.push(in_order[i].clone());
            assert(named.deep_view() =~= before.push(ordered[i as int]));
        }
        i += 1;
    }
    proof {
        assert(ordered.take(i as int) =~= ordered);
        if blank {
            let k = choose|k: int| 0 <= k < i && is_blank(#[trigger] ordered[k]);
            assert(ordered.contains(ordered[k]));
        }
        if has_blank(given) {
            let k = choose|k: int| 0 <= k < given.len() && is_blank(#[trigger] given[k]);
            assert(given.contains(given[k]));
        }
    }
    (blank, named)
}

/// Whether `language_variations` can count the rows of tags that it writes down.
pub fn tags_fit(tags: &Vec<String>) -> (r: bool)
    requires
        languages_wf(tags.deep_view()),
    ensures
        r == languages_fit(tags.deep_view()),
{
    let (_, named) = split_languages(tags);
    let rows = repeat_texts(&named);
    checked_product_len(&rows).is_some()
}

/// The values of the `accept-language` axis.
pub fn language_variations(tags: &Vec<String>) -> (r: Vec<String>)
    requires
        languages_wf(tags.deep_view()),
        languages_fit(tags.deep_view()),
    ensures
        r.deep_view() == language_values(tags.deep_view()),
        forall|i: int| 0 <= i < r.len() ==> is_header_text(#[trigger] r.deep_view()[i]),
{
    let (blank, named) = split_languages(tags);
    let ghost names = named.deep_view();
    let mut response: Vec<String> = Vec::new();
    if blank {
        response.push(String::new());
    }
    let ghost head = response.deep_view();
    if named.len() > 0 {
        let choices = cartesian_product(repeat_texts(&named));
        let ghost rows = product(repeated(names, names.len()));
        let mut values: Vec<String> = Vec::new();
        let mut i: usize = 0;
        proof {
            lemma_product_len(repeated(names, names.len()));
        }
        while i < choices.len()
            invariant
                i <= choices.len(),
                choices.deep_view() == rows,
                rows == product(repeated(names, names.len())),
                rows.len() == product_len(repeated(names, names.len())),
                values.len() == i,
                forall|k: int|
                    0 <= k < i ==> (#[trigger] values.deep_view()[k]) == arrangement(rows[k]),
                forall|k: int| 0 <= k < i ==> is_header_text(#[trigger] values.deep_view()[k]),
                forall|k: int| 0 <= k < names.len() ==> is_header_text(#[trigger] names[k]),
            decreases choices.len() - i,
        {
            let once = unique(clone_texts(&choices[i]));
            let value = join_texts(&once, ", ");
            proof {
                let row = rows[i as int];
                lemma_product_entry(repeated(names, names.len()), i as int);
                lemma_first_occurrences(row);
                assert forall|k: int| 0 <= k < once.len() implies is_header_text(
                    #[trigger] once.deep_view()[k],
                ) by {
                    let x = once.deep_view()[k];
                    assert(row.contains(x));
                    let j = choose|j: int| 0 <= j < row.len() && row[j] == x;
                    assert(repeated(names, names.len())[j].contains(row[j]));
                }
                lemma_join_is_text(once.deep_view());
            }
            let ghost before = values.deep_view();
            values.push(value);
            assert(values.deep_view() =~= before.push(value@));
            i += 1;
        }
        assert(values.deep_view() =~= rows.map_values(|c: Seq<Seq<char>>| arrangement(c)));
        let mut distinct = unique(values);
        proof {
            lemma_first_occurrences(values.deep_view());
            assert forall|k: int| 0 <= k < distinct.len() implies is_header_text(
                #[trigger] distinct.deep_view()[k],
            ) by {
                let x = distinct.deep_view()[k];
                assert(values.deep_view().contains(x));
            }
        }
        let ghost tail = distinct.deep_view();
        response.append(&mut distinct);
        assert(response.deep_view() =~= head + tail);
    }
    response
}

/// As many copies of the texts as there are texts.
fn repeat_texts(texts: &Vec<String>) -> (r: Vec<Vec<String>>)
    ensures
        r.deep_view() == repeated(texts.deep_view(), texts.deep_view().len()),
{
    let mut rows: Vec<Vec<String>> = Vec::new();
    let mut i: usize = 0;
    while i < texts.len()
        invariant
            i <= texts.len(),
            rows.len() == i,
            forall|k: int| 0 <= k < i ==> (#[trigger] rows.deep_view()[k]) == texts.deep_view(),
        decreases texts.len() - i,
    {
        let ghost before = rows.deep_view();
        let copy = clone_texts(texts);
        rows.push(copy);
        assert(rows.deep_view() =~= before.push(texts.deep_view()));
        i += 1;
    }
    rows
}

} // verus!
