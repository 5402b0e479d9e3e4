//! Orderings, products and first occurrences of sequences of texts.

use itertools::Itertools;
use vstd::prelude::*;
use vstd::relations::{sorted_by, total_ordering};
use vstd::string::StringExecFns;

verus! {

/// Every way to take one item from each axis, the first axis first; the last
/// axis changes from one combination to the next.
pub open spec fn product<T>(axes: Seq<Seq<T>>) -> Seq<Seq<T>>
    decreases axes.len(),
{
    if axes.len() == 0 {
        seq![Seq::<T>::empty()]
    } else {
        let rest = product(axes.drop_first());
        Seq::new(
            axes[0].len() * rest.len(),
            |i: int| seq![axes[0][i / (rest.len() as int)]] + rest[i % (rest.len() as int)],
        )
    }
}

/// The number of combinations: the product of the axes' lengths.
pub open spec fn product_len<T>(axes: Seq<Seq<T>>) -> nat
    decreases axes.len(),
{
    if axes.len() == 0 {
        1
    } else {
        axes[0].len() * product_len(axes.drop_first())
    }
}

/// The items in the order in which each occurs first.
pub open spec fn first_occurrences<T>(s: Seq<T>) -> Seq<T>
    decreases s.len(),
{
    if s.len() == 0 {
        Seq::empty()
    } else {
        let before = first_occurrences(s.drop_last());
        if before.contains(s.last()) {
            before
        } else {
            before.push(s.last())
        }
    }
}

/// Whether `a` comes before `b`, or equals it, where texts are compared
/// character by character and a text comes after each of its prefixes.
pub open spec fn text_le(a: Seq<char>, b: Seq<char>) -> bool
    decreases a.len(),
{
    if a.len() == 0 {
        true
    } else if b.len() == 0 {
        false
    } else if a[0] != b[0] {
        a[0] < b[0]
    } else {
        text_le(a.drop_first(), b.drop_first())
    }
}

/// The place on axis `j` of the item that combination `i` takes from it.
pub open spec fn digit<T>(axes: Seq<Seq<T>>, i: int, j: int) -> int
    decreases axes.len(),
{
    if axes.len() == 0 {
        0
    } else {
        let rest_len = product_len(axes.drop_first()) as int;
        if j == 0 {
            i / rest_len
        } else {
            digit(axes.drop_first(), i % rest_len, j - 1)
        }
    }
}

/// Whether `t` takes one item from each axis.
pub open spec fn is_combination<T>(axes: Seq<Seq<T>>, t: Seq<T>) -> bool {
    &&& t.len() == axes.len()
    &&& forall|j: int| 0 <= j < axes.len() ==> (#[trigger] axes[j]).contains(t[j])
}

/// A place below `a * b` has a quotient by `b` below `a` and a remainder below `b`.
pub proof fn lemma_div_mod_in_range(i: int, a: int, b: int)
    requires
        0 <= i < a * b,
        0 <= a,
        0 <= b,
    ensures
        0 < b,
        0 <= i / b < a,
        0 <= i % b < b,
        i == b * (i / b) + i % b,
{
    assert(0 <= i / b < a && 0 <= i % b < b && i == b * (i / b) + i % b) by (nonlinear_arith)
        requires
            0 <= i < a * b,
            0 < b,
    ;
}

/// `q * b + r` with `r` below `b` has the quotient `q` and the remainder `r`.
pub proof fn lemma_div_mod_of_parts(q: int, r: int, a: int, b: int)
    requires
        0 <= q < a,
        0 <= r < b,
    ensures
        0 <= q * b + r < a * b,
        (q * b + r) / b == q,
        (q * b + r) % b == r,
{
    assert(0 <= q * b + r < a * b) by (nonlinear_arith)
        requires
            0 <= q < a,
            0 <= r < b,
    ;
    vstd::arithmetic::div_mod::lemma_fundamental_div_mod_converse(q * b + r, b, q, r);
}

/// A product has as many combinations as the product of its axes' lengths.
pub proof fn lemma_product_len<T>(axes: Seq<Seq<T>>)
    ensures
        product(axes).len() == product_len(axes),
    decreases axes.len(),
{
    if axes.len() > 0 {
        lemma_product_len(axes.drop_first());
    }
}

/// Combination `i` of a product takes from each axis the item at its digit.
pub proof fn lemma_product_entry<T>(axes: Seq<Seq<T>>, i: int)
    requires
        0 <= i < product_len(axes),
    ensures
        product(axes).len() == product_len(axes),
        product(axes)[i].len() == axes.len(),
        forall|j: int|
            0 <= j < axes.len() ==> 0 <= #[trigger] digit(axes, i, j) < axes[j].len()
                && product(axes)[i][j] == axes[j][digit(axes, i, j)],
        is_combination(axes, product(axes)[i]),
    decreases axes.len(),
{
    if axes.len() > 0 {
        let tail = axes.drop_first();
        let rest = product(tail);
        lemma_product_len(tail);
        let b = rest.len() as int;
        lemma_div_mod_in_range(i, axes[0].len() as int, b);
        lemma_product_entry(tail, i % b);
        let t = product(axes)[i];
        assert forall|j: int| 0 <= j < axes.len() implies 0 <= #[trigger] digit(axes, i, j)
            < axes[j].len() && t[j] == axes[j][digit(axes, i, j)] by {
            if j > 0 {
                assert(0 <= digit(tail, i % b, j - 1) < tail[j - 1].len());
            }
        }
        assert forall|j: int| 0 <= j < axes.len() implies (#[trigger] axes[j]).contains(t[j]) by {
            assert(0 <= digit(axes, i, j) < axes[j].len());
        }
    }
}

/// Every combination of the axes' items stands in their product.
pub proof fn lemma_product_complete<T>(axes: Seq<Seq<T>>, t: Seq<T>)
    requires
        is_combination(axes, t),
    ensures
        product(axes).contains(t),
    decreases axes.len(),
{
    if axes.len() == 0 {
        assert(product(axes)[0] == t);
    } else {
        let tail = axes.drop_first();
        let rest = product(tail);
        let t_tail = t.drop_first();
        lemma_product_complete(tail, t_tail);
        let r = choose|r: int| 0 <= r < rest.len() && rest[r] == t_tail;
        let q = choose|q: int| 0 <= q < axes[0].len() && axes[0][q] == t[0];
        let b = rest.len() as int;
        lemma_div_mod_of_parts(q, r, axes[0].len() as int, b);
        let i = q * b + r;
        assert(product(axes)[i] =~= t);
    }
}

/// Where no axis holds an item twice, no combination stands twice in the product.
pub proof fn lemma_product_no_duplicates<T>(axes: Seq<Seq<T>>)
    requires
        forall|j: int| 0 <= j < axes.len() ==> (#[trigger] axes[j]).no_duplicates(),
    ensures
        product(axes).no_duplicates(),
    decreases axes.len(),
{
    if axes.len() > 0 {
        let tail = axes.drop_first();
        let rest = product(tail);
        lemma_product_no_duplicates(tail);
        let b = rest.len() as int;
        let all = product(axes);
        assert forall|i1: int, i2: int|
            0 <= i1 < all.len() && 0 <= i2 < all.len() && i1 != i2 implies all[i1] != all[i2] by {
            lemma_div_mod_in_range(i1, axes[0].len() as int, b);
            lemma_div_mod_in_range(i2, axes[0].len() as int, b);
            let t1 = seq![axes[0][i1 / b]] + rest[i1 % b];
            let t2 = seq![axes[0][i2 / b]] + rest[i2 % b];
            if t1 == t2 {
                assert(t1[0] == t2[0]);
                assert(t1.drop_first() =~= rest[i1 % b]);
                assert(t2.drop_first() =~= rest[i2 % b]);
            }
        }
    }
}

/// Among first occurrences no item stands twice, and they hold what the
/// sequence holds.
pub proof fn lemma_first_occurrences<T>(s: Seq<T>)
    ensures
        first_occurrences(s).no_duplicates(),
        first_occurrences(s).len() <= s.len(),
        forall|x: T| first_occurrences(s).contains(x) <==> s.contains(x),
    decreases s.len(),
{
    broadcast use vstd::seq_lib::group_seq_properties;

    if s.len() > 0 {
        let init = s.drop_last();
        lemma_first_occurrences(init);
        assert(s =~= init.push(s.last()));
    }
}

/// A sequence that holds no item twice is its own sequence of first occurrences.
pub proof fn lemma_first_occurrences_of_distinct<T>(s: Seq<T>)
    requires
        s.no_duplicates(),
    ensures
        first_occurrences(s) == s,
    decreases s.len(),
{
    if s.len() > 0 {
        let init = s.drop_last();
        lemma_first_occurrences_of_distinct(init);
    }
}

/// The order of texts as a relation.
pub open spec fn text_order() -> spec_fn(Seq<char>, Seq<char>) -> bool {
    |a: Seq<char>, b: Seq<char>| text_le(a, b)
}

/// The texts in ascending order.
pub open spec fn sorted_texts(s: Seq<Seq<char>>) -> Seq<Seq<char>> {
    s.sort_by(text_order())
}

proof fn lemma_text_le_antisymmetric(a: Seq<char>, b: Seq<char>)
    requires
        text_le(a, b),
        text_le(b, a),
    ensures
        a == b,
    decreases a.len(),
{
    if a.len() > 0 {
        lemma_text_le_antisymmetric(a.drop_first(), b.drop_first());
        assert(a =~= seq![a[0]] + a.drop_first());
    }
}

proof fn lemma_text_le_transitive(a: Seq<char>, b: Seq<char>, c: Seq<char>)
    requires
        text_le(a, b),
        text_le(b, c),
    ensures
        text_le(a, c),
    decreases a.len(),
{
    if a.len() > 0 && a[0] == b[0] && b[0] == c[0] {
        lemma_text_le_transitive(a.drop_first(), b.drop_first(), c.drop_first());
    }
}

proof fn lemma_text_le_connected(a: Seq<char>, b: Seq<char>)
    ensures
        text_le(a, b) || text_le(b, a),
    decreases a.len(),
{
    if a.len() > 0 && b.len() > 0 && a[0] == b[0] {
        lemma_text_le_connected(a.drop_first(), b.drop_first());
    }
}

/// The order of texts is total.
pub proof fn lemma_text_order_total()
    ensures
        total_ordering(text_order()),
{
    let r = text_order();
    assert forall|x: Seq<char>, y: Seq<char>| #[trigger] r(x, y) && #[trigger] r(y, x) implies x
        == y by {
        lemma_text_le_antisymmetric(x, y);
    }
    assert forall|x: Seq<char>, y: Seq<char>, z: Seq<char>| #[trigger]
        r(x, y) && #[trigger] r(y, z) implies r(x, z) by {
        lemma_text_le_transitive(x, y, z);
    }
    assert forall|x: Seq<char>, y: Seq<char>| #[trigger] r(x, y) || #[trigger] r(y, x) by {
        lemma_text_le_connected(x, y);
    }
}

/// Texts in ascending order that are a rearrangement of `s` are `sorted_texts(s)`.
pub proof fn lemma_sorted_texts_unique(s: Seq<Seq<char>>, r: Seq<Seq<char>>)
    requires
        r.to_multiset() == s.to_multiset(),
        sorted_by(r, text_order()),
    ensures
        r == sorted_texts(s),
{
    lemma_text_order_total();
    s.lemma_sort_by_ensures(text_order());
    vstd::seq_lib::lemma_sorted_unique(r, sorted_texts(s), text_order());
}

/// `Itertools::multi_cartesian_product`, collected: the combinations come
/// out in the order of `product`, one empty combination for no axes and none
/// where an axis is empty.
#[verifier::external_body]
pub(crate) fn cartesian_product(axes: Vec<Vec<String>>) -> (r: Vec<Vec<String>>)
    requires
        product_len(axes.deep_view()) <= usize::MAX,
    ensures
        r.deep_view() == product(axes.deep_view()),
{
    axes.into_iter().multi_cartesian_product().collect()
}

/// `Itertools::sorted`, collected: the same texts in ascending order, as
/// `String` orders them.
#[verifier::external_body]
pub(crate) fn sorted(items: Vec<String>) -> (r: Vec<String>)
    ensures
        r.deep_view().to_multiset() == items.deep_view().to_multiset(),
        sorted_by(r.deep_view(), text_order()),
{
    items.into_iter().sorted().collect()
}

/// `Itertools::unique`, collected: of equal texts the first stays, and what
/// stays keeps its order.
#[verifier::external_body]
pub(crate) fn unique(items: Vec<String>) -> (r: Vec<String>)
    ensures
        r.deep_view() == first_occurrences(items.deep_view()),
{
    items.into_iter().unique().collect()
}

/// The product of the lengths from axis `i` on is the length of axis `i`
/// times the product of the lengths behind it.
pub proof fn lemma_product_len_step<T>(axes: Seq<Seq<T>>, i: int)
    requires
        0 <= i < axes.len(),
    ensures
        product_len(axes.skip(i)) == axes[i].len() * product_len(axes.skip(i + 1)),
{
    assert(axes.skip(i).drop_first() =~= axes.skip(i + 1));
}

/// A product over an empty axis has no combination.
pub proof fn lemma_product_len_zero<T>(axes: Seq<Seq<T>>, j: int)
    requires
        0 <= j < axes.len(),
        axes[j].len() == 0,
    ensures
        product_len(axes) == 0,
    decreases axes.len(),
{
    if j > 0 {
        lemma_product_len_zero(axes.drop_first(), j - 1);
        assert(axes[0].len() * product_len(axes.drop_first()) == 0) by (nonlinear_arith)
            requires
                product_len(axes.drop_first()) == 0,
        ;
    }
}

/// Where no axis is empty, the axes behind a place have no more
/// combinations than all of them, and at least one.
pub proof fn lemma_product_len_grows<T>(axes: Seq<Seq<T>>, i: int)
    requires
        0 <= i <= axes.len(),
        forall|k: int| 0 <= k < axes.len() ==> (#[trigger] axes[k]).len() > 0,
    ensures
        1 <= product_len(axes.skip(i)) <= product_len(axes),
{
    lemma_product_len_positive(axes.skip(i));
    lemma_product_len_upto(axes, i);
}

proof fn lemma_product_len_positive<T>(axes: Seq<Seq<T>>)
    requires
        forall|k: int| 0 <= k < axes.len() ==> (#[trigger] axes[k]).len() > 0,
    ensures
        product_len(axes) >= 1,
    decreases axes.len(),
{
    if axes.len() > 0 {
        let tail = axes.drop_first();
        lemma_product_len_positive(tail);
        assert(axes[0].len() * product_len(tail) >= 1) by (nonlinear_arith)
            requires
                axes[0].len() >= 1,
                product_len(tail) >= 1,
        ;
    }
}

proof fn lemma_product_len_upto<T>(axes: Seq<Seq<T>>, i: int)
    requires
        0 <= i <= axes.len(),
        forall|k: int| 0 <= k < axes.len() ==> (#[trigger] axes[k]).len() > 0,
    ensures
        product_len(axes.skip(i)) <= product_len(axes),
    decreases i,
{
    if i == 0 {
        assert(axes.skip(0) =~= axes);
    } else {
        lemma_product_len_upto(axes, i - 1);
        lemma_product_len_step(axes, i - 1);
        assert(axes[i - 1].len() * product_len(axes.skip(i)) >= product_len(axes.skip(i)))
            by (nonlinear_arith)
            requires
                axes[i - 1].len() >= 1,
        ;
    }
}

/// The number of combinations of the axes, where it fits a `usize`.
pub(crate) fn checked_product_len(axes: &Vec<Vec<String>>) -> (r: Option<usize>)
    ensures
        match r {
            Some(n) => n == product_len(axes.deep_view()),
            None => product_len(axes.deep_view()) > usize::MAX,
        },
{
    let mut j: usize = 0;
    while j < axes.len()
        invariant
            j <= axes.len(),
            forall|k: int| 0 <= k < j ==> (#[trigger] axes.deep_view()[k]).len() > 0,
        decreases axes.len() - j,
    {
        if axes[j].len() == 0 {
            proof {
                lemma_product_len_zero(axes.deep_view(), j as int);
            }
            return Some(0);
        }
        j += 1;
    }
    let mut i: usize = axes.len();
    let mut count: usize = 1;
    while i > 0
        invariant
            i <= axes.len(),
            count == product_len(axes.deep_view().skip(i as int)),
            forall|k: int| 0 <= k < axes.len() ==> (#[trigger] axes.deep_view()[k]).len() > 0,
        decreases i,
    {
        i -= 1;
        proof {
            lemma_product_len_step(axes.deep_view(), i as int);
            lemma_product_len_grows(axes.deep_view(), i as int);
            assert(axes[i as int].len() * count == count * axes[i as int].len())
                by (nonlinear_arith);
        }
        match count.checked_mul(axes[i].len()) {
            Some(n) => {
                count = n;
            },
            None => {
                return None;
            },
        }
    }
    assert(axes.deep_view().skip(0) =~= axes.deep_view());
    Some(count)
}

/// Rearrangements hold the same items.
pub proof fn lemma_same_items<T>(a: Seq<T>, b: Seq<T>)
    requires
        a.to_multiset() == b.to_multiset(),
    ensures
        a.len() == b.len(),
        forall|x: T| a.contains(x) <==> b.contains(x),
{
    vstd::seq_lib::to_multiset_len(a);
    vstd::seq_lib::to_multiset_len(b);
    assert forall|x: T| a.contains(x) <==> b.contains(x) by {
        vstd::seq_lib::to_multiset_contains(a, x);
        vstd::seq_lib::to_multiset_contains(b, x);
    }
}

/// The sequence that holds `s` in each of its `n` places.
pub open spec fn repeated<T>(s: Seq<T>, n: nat) -> Seq<Seq<T>> {
    Seq::new(n, |j: int| s)
}

/// The parts in their order, with `sep` between each two of them.
pub open spec fn join(parts: Seq<Seq<char>>, sep: Seq<char>) -> Seq<char>
    decreases parts.len(),
{
    if parts.len() == 0 {
        Seq::empty()
    } else if parts.len() == 1 {
        parts[0]
    } else {
        join(parts.drop_last(), sep) + sep + parts.last()
    }
}

/// The parts as one text, with `sep` between each two of them.
pub(crate) fn join_texts(parts: &Vec<String>, sep: &str) -> (r: String)
    ensures
        r@ == join(parts.deep_view(), sep@),
{
    let mut out = String::new();
    let mut i: usize = 0;
    while i < parts.len()
        invariant
            i <= parts.len(),
            out@ == join(parts.deep_view().take(i as int), sep@),
        decreases parts.len() - i,
    {
        let ghost before = parts.deep_view().take(i as int);
        let ghost now = parts.deep_view().take(i + 1);
        assert(now.drop_last() =~= before);
        if i > 0 {
            out.append(sep);
        }
        out.append(parts[i].as_str());
        i += 1;
    }
    assert(parts.deep_view().take(i as int) =~= parts.deep_view());
    out
}

/// One more axis at the end multiplies the number of combinations by its length.
pub proof fn lemma_product_len_push<T>(axes: Seq<Seq<T>>, last: Seq<T>)
    ensures
        product_len(axes.push(last)) == product_len(axes) * last.len(),
    decreases axes.len(),
{
    let all = axes.push(last);
    let tail = all.drop_first();
    assert(product_len(all) == all[0].len() * product_len(tail));
    if axes.len() == 0 {
        assert(last.len() * 1 == 1 * last.len()) by (nonlinear_arith);
    } else {
        assert(tail =~= axes.drop_first().push(last));
        lemma_product_len_push(axes.drop_first(), last);
        assert(axes[0].len() * (product_len(axes.drop_first()) * last.len()) == (axes[0].len()
            * product_len(axes.drop_first())) * last.len()) by (nonlinear_arith);
    }
}

/// The first occurrences of a sequence that is not empty start with its
/// first item.
pub proof fn lemma_first_occurrences_head<T>(s: Seq<T>)
    requires
        s.len() > 0,
    ensures
        first_occurrences(s).len() > 0,
        first_occurrences(s)[0] == s[0],
    decreases s.len(),
{
    if s.len() == 1 {
        assert(first_occurrences(s.drop_last()) =~= Seq::<T>::empty());
    } else {
        lemma_first_occurrences_head(s.drop_last());
    }
}

/// Parts that are joined are at least as long as the first of them.
pub proof fn lemma_join_len(parts: Seq<Seq<char>>, sep: Seq<char>)
    requires
        parts.len() > 0,
    ensures
        join(parts, sep).len() >= parts[0].len(),
    decreases parts.len(),
{
    if parts.len() > 1 {
        lemma_join_len(parts.drop_last(), sep);
    }
}

/// A sequence without duplicates whose items all stand in `among` is no
/// longer than `among`.
pub proof fn lemma_distinct_len<T>(s: Seq<T>, among: Seq<T>)
    requires
        s.no_duplicates(),
        forall|i: int| 0 <= i < s.len() ==> among.contains(#[trigger] s[i]),
    ensures
        s.len() <= among.len(),
{
    s.unique_seq_to_set();
    among.lemma_cardinality_of_set();
    vstd::seq_lib::seq_to_set_is_finite(among);
    vstd::set_lib::lemma_len_subset(s.to_set(), among.to_set());
}

/// The sequence `s` with its first item `n` more times behind it.
pub open spec fn padded<T>(s: Seq<T>, n: nat) -> Seq<T>
    decreases n,
{
    if n == 0 {
        s
    } else {
        padded(s, (n - 1) as nat).push(s[0])
    }
}

/// Padding a sequence without duplicates keeps its items, makes it longer
/// by the padding, and leaves its first occurrences as they are.
pub proof fn lemma_padded<T>(s: Seq<T>, n: nat)
    requires
        s.len() > 0,
        s.no_duplicates(),
    ensures
        padded(s, n).len() == s.len() + n,
        forall|i: int| 0 <= i < padded(s, n).len() ==> s.contains(#[trigger] padded(s, n)[i]),
        first_occurrences(padded(s, n)) == s,
    decreases n,
{
    if n == 0 {
        lemma_first_occurrences_of_distinct(s);
    } else {
        let before = padded(s, (n - 1) as nat);
        lemma_padded(s, (n - 1) as nat);
        let all = padded(s, n);
        assert(all.drop_last() =~= before);
    }
}

/// A copy of the texts.
pub(crate) fn clone_texts(texts: &Vec<String>) -> (r: Vec<String>)
    ensures
        r.deep_view() == texts.deep_view(),
{
    let mut out: Vec<String> = Vec::new();
    let mut i: usize = 0;
    while i < texts.len()
        invariant
            i <= texts.len(),
            out.len() == i,
            forall|k: int| 0 <= k < i ==> out[k]@ == texts[k]@,
        decreases texts.len() - i,
    {
        out.push(texts[i].clone());
        i += 1;
    }
    out
}

/// Whether `texts` holds the text of `s`.
pub(crate) fn contains_text(texts: &Vec<String>, s: &String) -> (r: bool)
    ensures
        r == texts.deep_view().contains(s@),
{
    let mut i: usize = 0;
    while i < texts.len()
        invariant
            i <= texts.len(),
            forall|k: int| 0 <= k < i ==> texts.deep_view()[k] != s@,
        decreases texts.len() - i,
    {
        if texts[i] == *s {
            assert(texts.deep_view()[i as int] == s@);
            return true;
        }
        i += 1;
    }
    false
}

/// The items that are not among `known`, each once, in the order in which
/// each comes first.
pub open spec fn unseen<T>(items: Seq<T>, known: Seq<T>) -> Seq<T>
    decreases items.len(),
{
    if items.len() == 0 {
        Seq::empty()
    } else {
        let before = unseen(items.drop_last(), known);
        if known.contains(items.last()) || before.contains(items.last()) {
            before
        } else {
            before.push(items.last())
        }
    }
}

/// The unseen items are the items that are not known, and none of them
/// stands twice.
pub proof fn lemma_unseen<T>(items: Seq<T>, known: Seq<T>)
    ensures
        unseen(items, known).no_duplicates(),
        forall|x: T| unseen(items, known).contains(x) <==> items.contains(x) && !known.contains(x),
    decreases items.len(),
{
    broadcast use vstd::seq_lib::group_seq_properties;

    if items.len() > 0 {
        let init = items.drop_last();
        lemma_unseen(init, known);
        assert(items =~= init.push(items.last()));
    }
}

/// Known items that hold none twice, with the unseen items behind them,
/// hold none twice.
pub proof fn lemma_unseen_extends<T>(items: Seq<T>, known: Seq<T>)
    requires
        known.no_duplicates(),
    ensures
        (known + unseen(items, known)).no_duplicates(),
{
    lemma_unseen(items, known);
    let more = unseen(items, known);
    let all = known + more;
    assert forall|a: int, b: int| 0 <= a < all.len() && 0 <= b < all.len() && a != b implies all[a]
        != all[b] by {
        if a < known.len() && b >= known.len() {
            assert(more.contains(more[b - known.len()]));
            assert(known.contains(known[a]));
        }
        if b < known.len() && a >= known.len() {
            assert(more.contains(more[a - known.len()]));
            assert(known.contains(known[b]));
        }
    }
}

} // verus!
