//! Rendering a frequency table as lines of text.
//!
//! Each key gives one line: the key, a tab, the key's count in decimal, a
//! tab, and a bar of as many marks as the count says.

use vstd::prelude::*;
use vstd::string::StringExecFns;
use crate::decimal::{decimal, decimal_value, lemma_decimal_value, to_decimal};
use crate::error::HistError;
use crate::natural::{
    all_orderable, is_orderable, natural_less, natural_sorted, naturally_ordered, orderable,
    sort_naturally,
};
use crate::table::{counts_along, lemma_sum_rearranged, sum, FrequencyTable};

verus! {

/// The character of which bars are made.
pub const MARK: char = '#';

/// The character that separates the parts of a line.
pub const SEPARATOR: char = '\t';

/// The bar for a count: `n` marks.
pub open spec fn bar_of(n: nat) -> Seq<char> {
    Seq::new(n, |i: int| MARK)
}

/// The line for a key and its count.
pub open spec fn line_of(key: Seq<char>, count: nat) -> Seq<char> {
    key + seq![SEPARATOR] + decimal(count) + seq![SEPARATOR] + bar_of(count)
}

/// The lines for the keys of `order`, each with its count in `counts`.
pub open spec fn lines_of(order: Seq<Seq<char>>, counts: Map<Seq<char>, nat>) -> Seq<Seq<char>> {
    order.map_values(|key: Seq<char>| line_of(key, counts[key]))
}

/// In the line for a key the bar is as long as the count that stands before
/// it, and consists of marks only.
pub proof fn lemma_line_parts(key: Seq<char>, count: nat)
    ensures
        ({
            let line = line_of(key, count);
            let numeral_at = key.len() as int + 1;
            let bar_at = numeral_at + decimal(count).len() as int + 1;
            &&& line.len() == bar_at + count
            &&& line.subrange(0, numeral_at - 1) == key
            &&& line[numeral_at - 1] == SEPARATOR
            &&& line.subrange(numeral_at, bar_at - 1) == decimal(count)
            &&& decimal_value(decimal(count)) == count
            &&& line[bar_at - 1] == SEPARATOR
            &&& line.subrange(bar_at, line.len() as int) == bar_of(count)
            &&& bar_of(count).len() == count
            &&& forall|i: int| 0 <= i < count ==> bar_of(count)[i] == MARK
        }),
{
    lemma_decimal_value(count);
    let line = line_of(key, count);
    let numeral_at = key.len() as int + 1;
    let bar_at = numeral_at + decimal(count).len() as int + 1;
    assert(line.subrange(0, numeral_at - 1) =~= key);
    assert(line.subrange(numeral_at, bar_at - 1) =~= decimal(count));
    assert(line.subrange(bar_at, line.len() as int) =~= bar_of(count));
}

/// The bar for a count: `n` marks.
pub fn bar(n: usize) -> (marks: String)
    ensures
        marks@ == bar_of(n as nat),
{
    let mut marks = String::new();
    let mut i: usize = 0;
    proof {
        reveal_strlit("#");
    }
    while i < n
        invariant
            i <= n,
            marks@ == bar_of(i as nat),
            "#"@ == seq![MARK],
        decreases n - i,
    {
        marks.append("#");
        i += 1;
        assert(marks@ =~= bar_of(i as nat));
    }
    marks
}

/// The line for a key and its count.
pub fn render_line(key: &str, count: usize) -> (line: String)
    ensures
        line@ == line_of(key@, count as nat),
{
    proof {
        reveal_strlit("\t");
    }
    let mut line = String::from_str(key);
    line.append("\t");
    let numeral = to_decimal(count);
    line.append(numeral.as_str());
    line.append("\t");
    let marks = bar(count);
    line.append(marks.as_str());
    assert(line@ =~= line_of(key@, count as nat));
    line
}

/// The lines for the keys of `order`, each with its count in `table`.
pub fn render(table: &FrequencyTable, order: &Vec<String>) -> (lines: Vec<String>)
    requires
        table.wf(),
        forall|i: int| 0 <= i < order.len() ==> table@.dom().contains(#[trigger] order@[i]@),
    ensures
        lines.deep_view() == lines_of(order.deep_view(), table@),
{
    let mut lines: Vec<String> = Vec::new();
    let mut i: usize = 0;
    while i < order.len()
        invariant
            i <= order.len(),
            table.wf(),
            forall|i: int| 0 <= i < order.len() ==> table@.dom().contains(#[trigger] order@[i]@),
            lines.len() == i,
            forall|j: int|
                0 <= j < i ==> (#[trigger] lines@[j])@ == line_of(order@[j]@, table@[order@[j]@]),
        decreases order.len() - i,
    {
        let key = &order[i];
        assert(table@.dom().contains(order@[i as int]@));
        let count = table.count(key.as_str());
        lines.push(render_line(key.as_str(), count));
        i += 1;
    }
    assert(lines.deep_view() =~= lines_of(order.deep_view(), table@));
    lines
}

/// Whether `order` holds the keys of `table`, each once and in natural
/// lexical order, so that the lines for it show no count of zero, and
/// counts that add up to the number of additions that the table has seen.
pub open spec fn arranges(order: Seq<Seq<char>>, table: &FrequencyTable) -> bool {
    &&& order.to_multiset() == table.keys().to_multiset()
    &&& order.no_duplicates()
    &&& naturally_ordered(order)
    &&& forall|i: int| 0 <= i < order.len() ==> table@[#[trigger] order[i]] >= 1
    &&& sum(counts_along(order, table@)) == table.spec_total()
}

/// The histogram of a table whose keys can all be ordered: one line per
/// key, the keys in natural lexical order.
pub fn text_plot(table: &FrequencyTable) -> (lines: Vec<String>)
    requires
        table.wf(),
        all_orderable(table.keys()),
    ensures
        lines.deep_view() == lines_of(natural_sorted(table.keys()), table@),
        arranges(natural_sorted(table.keys()), table),
{
    let mut order: Vec<String> = Vec::new();
    let n = table.len();
    let mut i: usize = 0;
    while i < n
        invariant
            table.wf(),
            n == table.keys().len(),
            i <= n,
            order.len() == i,
            forall|j: int| 0 <= j < i ==> (#[trigger] order@[j])@ == table.keys()[j],
        decreases n - i,
    {
        order.push(table.key(i).clone());
        i += 1;
    }
    assert(order.deep_view() =~= table.keys());
    sort_naturally(&mut order);
    proof {
        let sorted = order.deep_view();
        table.keys().lemma_multiset_has_no_duplicates();
        sorted.lemma_multiset_has_no_duplicates_conv();
        lemma_sum_rearranged(sorted, table.keys(), table@);
        table.lemma_counts();
        assert(naturally_ordered(sorted)) by {
            assert forall|i: int, j: int| 0 <= i < j < sorted.len() implies #[trigger] sorted[i]
                == #[trigger] sorted[j] || natural_less(sorted[i], sorted[j]) by {
                assert(order@[i]@ == order@[j]@ || natural_less(
                    order@[i]@,
                    order@[j]@,
                ));
            }
        }
        assert forall|i: int| 0 <= i < order.len() implies table@.dom().contains(
            #[trigger] order@[i]@,
        ) && table@[order@[i]@] >= 1 by {
            assert(sorted[i] == order@[i]@);
            assert(sorted.to_multiset().count(sorted[i]) > 0) by {
                broadcast use vstd::seq_lib::group_to_multiset_ensures;

            }
            assert(table.keys().to_multiset().count(sorted[i]) > 0);
            assert(table.keys().contains(sorted[i])) by {
                broadcast use vstd::seq_lib::group_to_multiset_ensures;

            }
            table.lemma_entry(table.keys().index_of(sorted[i]));
        }
        assert forall|i: int| 0 <= i < sorted.len() implies table@[#[trigger] sorted[i]] >= 1 by {
            assert(table@.dom().contains(order@[i]@));
        }
    }
    render(table, &order)
}

/// The histogram of a table: one line per key, the keys in natural lexical
/// order, or `NumberTooLarge` where one of the keys cannot be ordered.
pub fn plot(table: &FrequencyTable) -> (lines: Result<Vec<String>, HistError>)
    requires
        table.wf(),
    ensures
        match lines {
            Ok(lines) => all_orderable(table.keys()) && lines.deep_view() == lines_of(
                natural_sorted(table.keys()),
                table@,
            ) && arranges(natural_sorted(table.keys()), table),
            Err(e) => !all_orderable(table.keys()) && e == HistError::NumberTooLarge,
        },
{
    let n = table.len();
    let mut i: usize = 0;
    while i < n
        invariant
            table.wf(),
            n == table.keys().len(),
            i <= n,
            forall|j: int| 0 <= j < i ==> orderable(#[trigger] table.keys()[j]),
        decreases n - i,
    {
        if !is_orderable(table.key(i).as_str()) {
            return Err(HistError::NumberTooLarge);
        }
        i += 1;
    }
    Ok(text_plot(table))
}

} // verus!
