//! The axes of a run: each header with the values to replay it with, and
//! the header sets that they give.

use crate::combine::{
    clone_texts, contains_text, is_combination, lemma_product_complete, lemma_product_entry,
    lemma_product_len, lemma_product_no_duplicates, product, product_len,
};
use crate::header::{is_header_name, is_header_value};
use vstd::prelude::*;

verus! {

/// A header name with the values to replay it with, as texts.
pub type AxisView = (Seq<char>, Seq<Seq<char>>);

/// One header with the values to replay it with.
#[derive(Debug)]
pub struct Axis {
    /// The name of the header, in lower case.
    pub name: String,
    /// The values, in the order in which they came.
    pub values: Vec<String>,
}

impl DeepView for Axis {
    type V = AxisView;

    open spec fn deep_view(&self) -> AxisView {
        (self.name@, self.values.deep_view())
    }
}

/// The place of the axis of `name`, or the number of axes where it has none.
pub open spec fn axis_index(axes: Seq<AxisView>, name: Seq<char>) -> int
    decreases axes.len(),
{
    if axes.len() == 0 || axes[0].0 == name {
        0
    } else {
        1 + axis_index(axes.drop_first(), name)
    }
}

/// The axes with `value` as one more value of `name`: behind the values that
/// the name has, unless it is one of them, or as a new last axis.
pub open spec fn add_value(axes: Seq<AxisView>, name: Seq<char>, value: Seq<char>) -> Seq<
    AxisView,
> {
    let at = axis_index(axes, name);
    if at == axes.len() {
        axes.push((name, seq![value]))
    } else if axes[at].1.contains(value) {
        axes
    } else {
        axes.update(at, (name, axes[at].1.push(value)))
    }
}

/// The axes with `value` as the only value of `name`, in the place that the
/// name had or as a new last axis.
pub open spec fn set_value(axes: Seq<AxisView>, name: Seq<char>, value: Seq<char>) -> Seq<
    AxisView,
> {
    let at = axis_index(axes, name);
    if at == axes.len() {
        axes.push((name, seq![value]))
    } else {
        axes.update(at, (name, seq![value]))
    }
}

/// The axes after each of `values` was added to `name` in turn.
pub open spec fn add_values(axes: Seq<AxisView>, name: Seq<char>, values: Seq<Seq<char>>) -> Seq<
    AxisView,
>
    decreases values.len(),
{
    if values.len() == 0 {
        axes
    } else {
        add_value(add_values(axes, name, values.drop_last()), name, values.last())
    }
}

/// The axes after each rule was added in turn.
pub open spec fn add_rules(axes: Seq<AxisView>, rules: Seq<(Seq<char>, Seq<char>)>) -> Seq<
    AxisView,
>
    decreases rules.len(),
{
    if rules.len() == 0 {
        axes
    } else {
        add_value(add_rules(axes, rules.drop_last()), rules.last().0, rules.last().1)
    }
}

/// Axes with stored names, each name once, and for each name at least one
/// value and no value twice.
pub open spec fn axes_wf(axes: Seq<AxisView>) -> bool {
    &&& forall|i: int|
        0 <= i < axes.len() ==> {
            &&& is_header_name((#[trigger] axes[i]).0)
            &&& axes[i].1.len() > 0
            &&& axes[i].1.no_duplicates()
            &&& forall|k: int| 0 <= k < axes[i].1.len() ==> is_header_value(#[trigger] axes[i].1[k])
        }
    &&& forall|i: int, j: int|
        0 <= i < axes.len() && 0 <= j < axes.len() && i != j ==> (#[trigger] axes[i]).0 != (
        #[trigger] axes[j]).0
}

/// A place that holds the name, with no place before it that does, is the
/// place that `axis_index` gives.
pub proof fn lemma_axis_index(axes: Seq<AxisView>, name: Seq<char>, at: int)
    requires
        0 <= at <= axes.len(),
        forall|k: int| 0 <= k < at ==> (#[trigger] axes[k]).0 != name,
        at < axes.len() ==> axes[at].0 == name,
    ensures
        axis_index(axes, name) == at,
    decreases axes.len(),
{
    if at > 0 {
        let tail = axes.drop_first();
        lemma_axis_index(tail, name, at - 1);
    }
}

/// The place that `axis_index` gives holds the name, and no place before it does.
pub proof fn lemma_axis_index_found(axes: Seq<AxisView>, name: Seq<char>)
    ensures
        0 <= axis_index(axes, name) <= axes.len(),
        axis_index(axes, name) < axes.len() ==> axes[axis_index(axes, name)].0 == name,
        forall|k: int| 0 <= k < axis_index(axes, name) ==> (#[trigger] axes[k]).0 != name,
    decreases axes.len(),
{
    if !(axes.len() == 0 || axes[0].0 == name) {
        let tail = axes.drop_first();
        lemma_axis_index_found(tail, name);
        assert forall|k: int| 0 <= k < axis_index(axes, name) implies (#[trigger] axes[k]).0
            != name by {
            if k > 0 {
                assert(tail[k - 1] == axes[k]);
            }
        }
    }
}

/// Adding a value keeps axes well formed.
pub proof fn lemma_add_value_wf(axes: Seq<AxisView>, name: Seq<char>, value: Seq<char>)
    requires
        axes_wf(axes),
        is_header_name(name),
        is_header_value(value),
    ensures
        axes_wf(add_value(axes, name, value)),
{
    lemma_axis_index_found(axes, name);
    assert(axes_wf(add_value(axes, name, value)));
}

/// Setting a value keeps axes well formed.
pub proof fn lemma_set_value_wf(axes: Seq<AxisView>, name: Seq<char>, value: Seq<char>)
    requires
        axes_wf(axes),
        is_header_name(name),
        is_header_value(value),
    ensures
        axes_wf(set_value(axes, name, value)),
{
    lemma_axis_index_found(axes, name);
}

/// Adding values keeps axes well formed.
pub proof fn lemma_add_values_wf(axes: Seq<AxisView>, name: Seq<char>, values: Seq<Seq<char>>)
    requires
        axes_wf(axes),
        is_header_name(name),
        forall|k: int| 0 <= k < values.len() ==> is_header_value(#[trigger] values[k]),
    ensures
        axes_wf(add_values(axes, name, values)),
    decreases values.len(),
{
    if values.len() > 0 {
        let init = values.drop_last();
        lemma_add_values_wf(axes, name, init);
        lemma_add_value_wf(add_values(axes, name, init), name, values.last());
    }
}

/// The values of each axis.
pub open spec fn axis_values(axes: Seq<AxisView>) -> Seq<Seq<Seq<char>>> {
    axes.map_values(|a: AxisView| a.1)
}

/// The header set that takes from each axis the value that `choice` has in
/// its place, under the name of the axis.
pub open spec fn header_set(axes: Seq<AxisView>, choice: Seq<Seq<char>>) -> Seq<
    (Seq<char>, Seq<char>),
> {
    Seq::new(axes.len(), |j: int| (axes[j].0, choice[j]))
}

/// One header set for each way to take one value from each axis.
pub open spec fn header_sets(axes: Seq<AxisView>) -> Seq<Seq<(Seq<char>, Seq<char>)>> {
    product(axis_values(axes)).map_values(|c: Seq<Seq<char>>| header_set(axes, c))
}

/// There are as many header sets as the product of the axes' numbers of values.
pub proof fn lemma_header_sets_len(axes: Seq<AxisView>)
    ensures
        header_sets(axes).len() == product_len(axis_values(axes)),
{
    lemma_product_len(axis_values(axes));
}

/// Each header set holds one header for each axis, under the axis's name
/// and with one of its values.
pub proof fn lemma_header_sets_entry(axes: Seq<AxisView>, i: int)
    requires
        0 <= i < header_sets(axes).len(),
    ensures
        header_sets(axes)[i].len() == axes.len(),
        forall|j: int|
            0 <= j < axes.len() ==> (#[trigger] header_sets(axes)[i][j]).0 == axes[j].0
                && axes[j].1.contains(header_sets(axes)[i][j].1),
{
    lemma_product_len(axis_values(axes));
    lemma_product_entry(axis_values(axes), i);
    let row = product(axis_values(axes))[i];
    assert forall|j: int| 0 <= j < axes.len() implies (#[trigger] header_sets(axes)[i][j]).0
        == axes[j].0 && axes[j].1.contains(header_sets(axes)[i][j].1) by {
        assert(axis_values(axes)[j].contains(row[j]));
    }
}

/// Every way to take one value from each axis is one of the header sets.
pub proof fn lemma_header_sets_complete(axes: Seq<AxisView>, choice: Seq<Seq<char>>)
    requires
        is_combination(axis_values(axes), choice),
    ensures
        header_sets(axes).contains(header_set(axes, choice)),
{
    lemma_product_complete(axis_values(axes), choice);
    let rows = product(axis_values(axes));
    let i = choose|i: int| 0 <= i < rows.len() && rows[i] == choice;
    assert(header_sets(axes)[i] == header_set(axes, choice));
}

/// Where no axis holds a value twice, no header set comes twice.
pub proof fn lemma_header_sets_distinct(axes: Seq<AxisView>)
    requires
        axes_wf(axes),
    ensures
        header_sets(axes).no_duplicates(),
{
    let values = axis_values(axes);
    lemma_product_no_duplicates(values);
    lemma_product_len(values);
    let rows = product(values);
    let sets = header_sets(axes);
    assert forall|a: int, b: int|
        0 <= a < sets.len() && 0 <= b < sets.len() && a != b implies sets[a] != sets[b] by {
        lemma_product_entry(values, a);
        lemma_product_entry(values, b);
        if sets[a] == sets[b] {
            assert forall|j: int| 0 <= j < axes.len() implies rows[a][j] == rows[b][j] by {
                assert(sets[a][j].1 == rows[a][j]);
            }
            assert(rows[a] =~= rows[b]);
        }
    }
}

/// The place of the axis of `name`, or the number of axes where it has none.
fn find_axis(axes: &Vec<Axis>, name: &String) -> (at: usize)
    ensures
        at == axis_index(axes.deep_view(), name@),
        at <= axes.len(),
{
    let mut at: usize = 0;
    while at < axes.len() && axes[at].name != *name
        invariant
            at <= axes.len(),
            forall|k: int| 0 <= k < at ==> (#[trigger] axes.deep_view()[k]).0 != name@,
        decreases axes.len() - at,
    {
        at += 1;
    }
    proof {
        lemma_axis_index(axes.deep_view(), name@, at as int);
    }
    at
}

/// Adds `value` to the axis of `name`, or opens that axis.
pub(crate) fn add_axis_value(axes: &mut Vec<Axis>, name: String, value: String)
    ensures
        final(axes).deep_view() == add_value(old(axes).deep_view(), name@, value@),
{
    let at = find_axis(axes, &name);
    if at == axes.len() {
        let mut values: Vec<String> = Vec::new();
        values.push(value);
        assert(values.deep_view() =~= seq![value@]);
        axes.push(Axis { name, values });
    } else if !contains_text(&axes[at].values, &value) {
        let ghost before = axes.deep_view();
        proof {
            lemma_axis_index_found(before, name@);
        }
        axes[at].values.push(value);
        assert(axes[at as int].values.deep_view() =~= before[at as int].1.push(value@));
    }
}

/// Makes `value` the only value of the axis of `name`, or opens that axis.
pub(crate) fn set_axis_value(axes: &mut Vec<Axis>, name: String, value: String)
    ensures
        final(axes).deep_view() == set_value(old(axes).deep_view(), name@, value@),
{
    let at = find_axis(axes, &name);
    let mut values: Vec<String> = Vec::new();
    values.push(value);
    assert(values.deep_view() =~= seq![value@]);
    if at == axes.len() {
        axes.push(Axis { name, values });
    } else {
        let ghost before = axes.deep_view();
        proof {
            lemma_axis_index_found(before, name@);
        }
        axes[at].values = values;
    }
}

/// The values of each axis.
pub(crate) fn values_of(axes: &Vec<Axis>) -> (r: Vec<Vec<String>>)
    ensures
        r.deep_view() == axis_values(axes.deep_view()),
{
    let mut values: Vec<Vec<String>> = Vec::new();
    let mut i: usize = 0;
    while i < axes.len()
        invariant
            i <= axes.len(),
            values.len() == i,
            forall|k: int|
                0 <= k < i ==> (#[trigger] values.deep_view()[k]) == axes.deep_view()[k].1,
        decreases axes.len() - i,
    {
        let ghost before = values.deep_view();
        let copy = clone_texts(&axes[i].values);
        values.push(copy);
        assert(values.deep_view() =~= before.push(axes.deep_view()[i as int].1));
        i += 1;
    }
    values
}

} // verus!
