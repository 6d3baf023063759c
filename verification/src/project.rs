//! Per-language line totals of a project, and the order they are reported in.

use vstd::prelude::*;
use crate::text::{chars_less, chars_of, chars_precede, lemma_chars_less_asymmetric, lemma_chars_less_total, lemma_chars_less_transitive};

verus! {

/// One language's share of a project: `(language, lines)`.
pub type LanguageEntry = (Seq<char>, nat);

/// The lines of a language in a project.
#[derive(Debug)]
pub struct LanguageTotal {
    pub language: String,
    pub sloc: usize,
}

impl View for LanguageTotal {
    type V = LanguageEntry;

    open spec fn view(&self) -> LanguageEntry {
        (self.language@, self.sloc as nat)
    }
}

/// The plain values of a list of language totals.
pub open spec fn entries_of(totals: Seq<LanguageTotal>) -> Seq<LanguageEntry> {
    totals.map_values(|t: LanguageTotal| t@)
}

/// The sum of the line counts of `entries`.
pub open spec fn sum_counts(entries: Seq<LanguageEntry>) -> nat
    decreases entries.len(),
{
    if entries.len() == 0 {
        0
    } else {
        sum_counts(entries.drop_last()) + entries.last().1
    }
}

/// No language occurs twice in `entries`.
pub open spec fn distinct_languages(entries: Seq<LanguageEntry>) -> bool {
    forall|i: int, j: int|
        0 <= i < entries.len() && 0 <= j < entries.len() && i != j ==> #[trigger] entries[i].0
            != #[trigger] entries[j].0
}

/// `language` has an entry in `entries`.
pub open spec fn has_language(entries: Seq<LanguageEntry>, language: Seq<char>) -> bool {
    exists|i: int| 0 <= i < entries.len() && (#[trigger] entries[i]).0 == language
}

/// The position of `language`'s entry (meaningful when it has one).
pub open spec fn position_of(entries: Seq<LanguageEntry>, language: Seq<char>) -> int {
    choose|i: int| 0 <= i < entries.len() && (#[trigger] entries[i]).0 == language
}

/// The lines counted for `language`, or `None` when it has no entry.
pub open spec fn lines_of(entries: Seq<LanguageEntry>, language: Seq<char>) -> Option<nat> {
    if has_language(entries, language) {
        Some(entries[position_of(entries, language)].1)
    } else {
        None
    }
}

/// `entries` after a file of `lines` lines in `language` is counted: the
/// language's entry grows by `lines`, or a new entry is appended at the end.
pub open spec fn with_file(entries: Seq<LanguageEntry>, language: Seq<char>, lines: nat) -> Seq<LanguageEntry> {
    if has_language(entries, language) {
        let i: int = position_of(entries, language);
        entries.update(i, (language, entries[i].1 + lines))
    } else {
        entries.push((language, lines))
    }
}

/// The project total is the sum of the per-language totals, and each
/// language is listed once.
pub open spec fn consistent(total: nat, entries: Seq<LanguageEntry>) -> bool {
    &&& total == sum_counts(entries)
    &&& distinct_languages(entries)
}

proof fn lemma_sum_counts_update(entries: Seq<LanguageEntry>, i: int, entry: LanguageEntry)
    requires
        0 <= i < entries.len(),
    ensures
        sum_counts(entries.update(i, entry)) + entries[i].1 == sum_counts(entries) + entry.1,
    decreases entries.len(),
{
    let updated = entries.update(i, entry);
    if i == entries.len() - 1 {
        assert(updated.drop_last() =~= entries.drop_last());
    } else {
        lemma_sum_counts_update(entries.drop_last(), i, entry);
        assert(updated.drop_last() =~= entries.drop_last().update(i, entry));
    }
}

proof fn lemma_entry_le_sum(entries: Seq<LanguageEntry>, i: int)
    requires
        0 <= i < entries.len(),
    ensures
        entries[i].1 <= sum_counts(entries),
    decreases entries.len(),
{
    if i < entries.len() - 1 {
        lemma_entry_le_sum(entries.drop_last(), i);
    }
}

/// Counting a file keeps the totals consistent: the project total grows by
/// the file's lines, and no language is listed twice.
pub proof fn lemma_with_file_consistent(total: nat, entries: Seq<LanguageEntry>, language: Seq<char>, lines: nat)
    requires
        consistent(total, entries),
    ensures
        consistent(total + lines, with_file(entries, language, lines)),
{
    if has_language(entries, language) {
        let i: int = position_of(entries, language);
        lemma_sum_counts_update(entries, i, (language, entries[i].1 + lines));
        let updated = with_file(entries, language, lines);
        assert forall|a: int, b: int|
            0 <= a < updated.len() && 0 <= b < updated.len() && a != b implies #[trigger] updated[a].0
            != #[trigger] updated[b].0 by {
            assert(entries[a].0 == updated[a].0);
            assert(entries[b].0 == updated[b].0);
        }
    } else {
        let pushed = with_file(entries, language, lines);
        assert(pushed.drop_last() =~= entries);
        assert forall|a: int, b: int|
            0 <= a < pushed.len() && 0 <= b < pushed.len() && a != b implies #[trigger] pushed[a].0
            != #[trigger] pushed[b].0 by {
            if a == entries.len() {
                assert(entries[b].0 != language);
            } else if b == entries.len() {
                assert(entries[a].0 != language);
            }
        }
    }
}

/// After a file of `lines` lines in `language` is counted, that language has
/// its earlier count (none counts as zero) plus `lines`, and every other
/// language keeps its count.
pub proof fn lemma_with_file_lines_of(
    total: nat,
    entries: Seq<LanguageEntry>,
    language: Seq<char>,
    lines: nat,
    other: Seq<char>,
)
    requires
        consistent(total, entries),
    ensures
        lines_of(with_file(entries, language, lines), other) == if other == language {
            Some(
                match lines_of(entries, language) {
                    Some(n) => n + lines,
                    None => lines,
                },
            )
        } else {
            lines_of(entries, other)
        },
{
    lemma_with_file_consistent(total, entries, language, lines);
    let after = with_file(entries, language, lines);
    if has_language(entries, language) {
        let p: int = position_of(entries, language);
        assert(after[p].0 == language);
        if other == language {
            let q: int = position_of(after, language);
            assert(q == p) by {
                if q != p {
                    assert(after[q].0 != after[p].0);
                }
            }
        } else if has_language(entries, other) {
            let q: int = position_of(entries, other);
            assert(after[q] == entries[q]);
            let r: int = position_of(after, other);
            assert(r == q) by {
                if r != q {
                    assert(after[r].0 != after[q].0);
                }
            }
        } else {
            assert(!has_language(after, other)) by {
                if has_language(after, other) {
                    let r: int = position_of(after, other);
                    assert(entries[r].0 == other);
                }
            }
        }
    } else {
        let last: int = entries.len() as int;
        assert(after[last].0 == language);
        if other == language {
            let q: int = position_of(after, language);
            assert(q == last) by {
                if q != last {
                    assert(after[q].0 != after[last].0);
                }
            }
        } else if has_language(entries, other) {
            let q: int = position_of(entries, other);
            assert(after[q] == entries[q]);
            let r: int = position_of(after, other);
            assert(r == q) by {
                if r != q {
                    assert(after[r].0 != after[q].0);
                }
            }
        } else {
            assert(!has_language(after, other)) by {
                if has_language(after, other) {
                    let r: int = position_of(after, other);
                    if r < last {
                        assert(entries[r].0 == other);
                    }
                }
            }
        }
    }
}

/// The order in which files are counted does not matter: counting a file of
/// `lines_a` lines in `a` and one of `lines_b` lines in `b`, in either order,
/// leaves every language with the same count and the same project total.
pub proof fn lemma_counting_order_irrelevant(
    total: nat,
    entries: Seq<LanguageEntry>,
    a: Seq<char>,
    lines_a: nat,
    b: Seq<char>,
    lines_b: nat,
)
    requires
        consistent(total, entries),
    ensures
        forall|language: Seq<char>|
            #![trigger lines_of(with_file(with_file(entries, a, lines_a), b, lines_b), language)]
            lines_of(with_file(with_file(entries, a, lines_a), b, lines_b), language) == lines_of(
                with_file(with_file(entries, b, lines_b), a, lines_a),
                language,
            ),
        sum_counts(with_file(with_file(entries, a, lines_a), b, lines_b)) == sum_counts(
            with_file(with_file(entries, b, lines_b), a, lines_a),
        ),
{
    let ab1 = with_file(entries, a, lines_a);
    let ba1 = with_file(entries, b, lines_b);
    lemma_with_file_consistent(total, entries, a, lines_a);
    lemma_with_file_consistent(total, entries, b, lines_b);
    lemma_with_file_consistent(total + lines_a, ab1, b, lines_b);
    lemma_with_file_consistent(total + lines_b, ba1, a, lines_a);
    assert forall|language: Seq<char>|
        #![trigger lines_of(with_file(with_file(entries, a, lines_a), b, lines_b), language)]
        lines_of(with_file(ab1, b, lines_b), language) == lines_of(with_file(ba1, a, lines_a), language) by {
        lemma_with_file_lines_of(total, entries, a, lines_a, language);
        lemma_with_file_lines_of(total, entries, b, lines_b, language);
        lemma_with_file_lines_of(total + lines_a, ab1, b, lines_b, language);
        lemma_with_file_lines_of(total + lines_b, ba1, a, lines_a, language);
        lemma_with_file_lines_of(total, entries, a, lines_a, b);
        lemma_with_file_lines_of(total, entries, b, lines_b, a);
    }
}

/// The per-language entries after counting `files`, each a language and its
/// lines, in order.
pub open spec fn tallied(files: Seq<LanguageEntry>) -> Seq<LanguageEntry>
    decreases files.len(),
{
    if files.len() == 0 {
        Seq::empty()
    } else {
        with_file(tallied(files.drop_last()), files.last().0, files.last().1)
    }
}

/// The lines of all files in `language` among `files`, or `None` when none
/// is in that language.
pub open spec fn lines_in(files: Seq<LanguageEntry>, language: Seq<char>) -> Option<nat>
    decreases files.len(),
{
    if files.len() == 0 {
        None
    } else {
        let earlier = lines_in(files.drop_last(), language);
        if files.last().0 == language {
            Some(
                match earlier {
                    Some(n) => n + files.last().1,
                    None => files.last().1,
                },
            )
        } else {
            earlier
        }
    }
}

proof fn lemma_prefix_sum_le(entries: Seq<LanguageEntry>, k: int)
    requires
        0 <= k <= entries.len(),
    ensures
        sum_counts(entries.take(k)) <= sum_counts(entries),
    decreases entries.len() - k,
{
    if k < entries.len() {
        lemma_prefix_sum_le(entries, k + 1);
        assert(entries.take(k + 1).drop_last() =~= entries.take(k));
    } else {
        assert(entries.take(k) =~= entries);
    }
}

/// `a` is reported before `b`: more lines first, and by name among equals.
pub open spec fn reported_before(a: LanguageEntry, b: LanguageEntry) -> bool {
    a.1 > b.1 || (a.1 == b.1 && chars_less(a.0, b.0))
}

/// Every entry of `report` is reported before each later one.
pub open spec fn report_ordered(report: Seq<LanguageEntry>) -> bool {
    forall|i: int, j: int| 0 <= i < j < report.len() ==> reported_before(#[trigger] report[i], #[trigger] report[j])
}

proof fn lemma_reported_before_asymmetric(a: LanguageEntry, b: LanguageEntry)
    requires
        reported_before(a, b),
    ensures
        !reported_before(b, a),
        a != b,
{
    if a.1 == b.1 {
        lemma_chars_less_asymmetric(a.0, b.0);
    }
}

/// In a list where no language occurs twice, an entry occurs once exactly
/// when it is the language's entry, and not at all otherwise.
proof fn lemma_count_in_distinct(entries: Seq<LanguageEntry>, x: LanguageEntry)
    requires
        distinct_languages(entries),
    ensures
        entries.to_multiset().count(x) == if lines_of(entries, x.0) == Some(x.1) {
            1nat
        } else {
            0nat
        },
    decreases entries.len(),
{
    broadcast use vstd::seq_lib::group_to_multiset_ensures;

    if entries.len() == 0 {
        assert(!has_language(entries, x.0));
    } else {
        let rest = entries.drop_last();
        let e = entries.last();
        assert(distinct_languages(rest)) by {
            assert forall|i: int, j: int|
                0 <= i < rest.len() && 0 <= j < rest.len() && i != j implies #[trigger] rest[i].0
                != #[trigger] rest[j].0 by {
                assert(rest[i] == entries[i] && rest[j] == entries[j]);
            }
        }
        lemma_count_in_distinct(rest, x);
        assert(!has_language(rest, e.0)) by {
            if has_language(rest, e.0) {
                let i: int = position_of(rest, e.0);
                assert(entries[i].0 == entries[entries.len() - 1].0);
            }
        }
        assert(rest.push(e) =~= entries);
        assert(with_file(rest, e.0, e.1) =~= entries);
        lemma_with_file_lines_of(sum_counts(rest), rest, e.0, e.1, x.0);
        if x.0 == e.0 {
            lemma_count_in_distinct(rest, x);
        }
    }
}

/// Two lists without repeated languages that give every language the same
/// count hold the same entries.
proof fn lemma_same_counts_same_multiset(s1: Seq<LanguageEntry>, s2: Seq<LanguageEntry>)
    requires
        distinct_languages(s1),
        distinct_languages(s2),
        forall|language: Seq<char>| #[trigger] lines_of(s1, language) == lines_of(s2, language),
    ensures
        s1.to_multiset() == s2.to_multiset(),
{
    assert forall|x: LanguageEntry| s1.to_multiset().count(x) == s2.to_multiset().count(x) by {
        lemma_count_in_distinct(s1, x);
        lemma_count_in_distinct(s2, x);
        assert(lines_of(s1, x.0) == lines_of(s2, x.0));
    }
    assert(s1.to_multiset() =~= s2.to_multiset());
}

/// A report is determined by its entries: two ordered reports of the same
/// entries are equal.
pub proof fn lemma_report_is_unique(r1: Seq<LanguageEntry>, r2: Seq<LanguageEntry>)
    requires
        report_ordered(r1),
        report_ordered(r2),
        r1.to_multiset() == r2.to_multiset(),
    ensures
        r1 == r2,
    decreases r1.len(),
{
    broadcast use vstd::seq_lib::group_to_multiset_ensures;

    assert(r1.to_multiset().len() == r1.len());
    assert(r2.to_multiset().len() == r2.len());
    if r1.len() == 0 {
        assert(r2.len() == 0);
        assert(r1 =~= r2);
    } else {
        assert(r2.len() == r1.len());
        let first1 = r1[0];
        let first2 = r2[0];
        assert(r1.contains(first1));
        assert(r2.to_multiset().count(first1) > 0);
        assert(r2.contains(first1));
        let j: int = choose|j: int| 0 <= j < r2.len() && r2[j] == first1;
        assert(r2.contains(first2));
        assert(r1.to_multiset().count(first2) > 0);
        assert(r1.contains(first2));
        let i: int = choose|i: int| 0 <= i < r1.len() && r1[i] == first2;
        if j > 0 {
            assert(reported_before(r2[0], r2[j]));
            if i > 0 {
                assert(reported_before(r1[0], r1[i]));
                lemma_reported_before_asymmetric(r1[0], r1[i]);
            } else {
                lemma_reported_before_asymmetric(r2[0], r2[j]);
            }
        }
        assert(first1 == first2);
        let t1 = r1.drop_first();
        let t2 = r2.drop_first();
        assert(r1.remove(0) =~= t1);
        assert(r2.remove(0) =~= t2);
        assert(t1.to_multiset() =~= t2.to_multiset());
        assert(report_ordered(t1)) by {
            assert forall|a: int, b: int| 0 <= a < b < t1.len() implies reported_before(
                #[trigger] t1[a],
                #[trigger] t1[b],
            ) by {
                assert(t1[a] == r1[a + 1] && t1[b] == r1[b + 1]);
            }
        }
        assert(report_ordered(t2)) by {
            assert forall|a: int, b: int| 0 <= a < b < t2.len() implies reported_before(
                #[trigger] t2[a],
                #[trigger] t2[b],
            ) by {
                assert(t2[a] == r2[a + 1] && t2[b] == r2[b + 1]);
            }
        }
        lemma_report_is_unique(t1, t2);
        assert(r1 =~= r2) by {
            assert forall|k: int| 0 <= k < r1.len() implies r1[k] == r2[k] by {
                if k > 0 {
                    assert(r1[k] == t1[k - 1] && r2[k] == t2[k - 1]);
                }
            }
        }
    }
}

/// The report does not depend on the order in which files are counted:
/// counting a file in `a` and one in `b`, in either order, gives the same
/// project total and the same ordered report.
pub proof fn lemma_report_independent_of_counting_order(
    total: nat,
    entries: Seq<LanguageEntry>,
    a: Seq<char>,
    lines_a: nat,
    b: Seq<char>,
    lines_b: nat,
    report_ab: Seq<LanguageEntry>,
    report_ba: Seq<LanguageEntry>,
)
    requires
        consistent(total, entries),
        report_ordered(report_ab),
        report_ab.to_multiset() == with_file(with_file(entries, a, lines_a), b, lines_b).to_multiset(),
        report_ordered(report_ba),
        report_ba.to_multiset() == with_file(with_file(entries, b, lines_b), a, lines_a).to_multiset(),
    ensures
        report_ab == report_ba,
        sum_counts(with_file(with_file(entries, a, lines_a), b, lines_b)) == sum_counts(
            with_file(with_file(entries, b, lines_b), a, lines_a),
        ),
{
    let ab = with_file(with_file(entries, a, lines_a), b, lines_b);
    let ba = with_file(with_file(entries, b, lines_b), a, lines_a);
    lemma_with_file_consistent(total, entries, a, lines_a);
    lemma_with_file_consistent(total, entries, b, lines_b);
    lemma_with_file_consistent(total + lines_a, with_file(entries, a, lines_a), b, lines_b);
    lemma_with_file_consistent(total + lines_b, with_file(entries, b, lines_b), a, lines_a);
    lemma_counting_order_irrelevant(total, entries, a, lines_a, b, lines_b);
    lemma_same_counts_same_multiset(ab, ba);
    lemma_report_is_unique(report_ab, report_ba);
}

/// `a` comes before `b` by the first character where they differ, or as a
/// proper prefix of `b`.
pub open spec fn name_first_differs_lower(a: Seq<char>, b: Seq<char>) -> bool {
    exists|k: int|
        0 <= k <= a.len() && k <= b.len() && #[trigger] a.take(k) == b.take(k) && ((k < a.len() && k < b.len()
            && a[k] < b[k]) || (k == a.len() && k < b.len()))
}

proof fn lemma_chars_less_first_difference(a: Seq<char>, b: Seq<char>)
    requires
        chars_less(a, b),
    ensures
        name_first_differs_lower(a, b),
    decreases a.len(),
{
    if a.len() == 0 {
        assert(a.take(0) =~= b.take(0));
    } else if a[0] != b[0] {
        assert(a.take(0) =~= b.take(0));
    } else {
        let a1 = a.drop_first();
        let b1 = b.drop_first();
        lemma_chars_less_first_difference(a1, b1);
        let k = choose|k: int|
            0 <= k <= a1.len() && k <= b1.len() && #[trigger] a1.take(k) == b1.take(k) && ((k < a1.len() && k
                < b1.len() && a1[k] < b1[k]) || (k == a1.len() && k < b1.len()));
        assert(a.take(k + 1) =~= b.take(k + 1)) by {
            assert forall|m: int| 0 <= m < k + 1 implies #[trigger] a.take(k + 1)[m] == b.take(k + 1)[m] by {
                if m > 0 {
                    assert(a1.take(k)[m - 1] == b1.take(k)[m - 1]);
                }
            }
        }
        if k < a1.len() && k < b1.len() {
            assert(a[k + 1] == a1[k] && b[k + 1] == b1[k]);
        }
    }
}

/// A report lists languages by their numbers of lines, never fewer before
/// more; among equal counts the names ascend by the first character where
/// they differ (a name before any longer name it begins).
pub proof fn lemma_report_by_lines_then_name(report: Seq<LanguageEntry>)
    requires
        report_ordered(report),
    ensures
        forall|i: int, j: int| 0 <= i < j < report.len() ==> #[trigger] report[i].1 >= #[trigger] report[j].1,
        forall|i: int, j: int|
            0 <= i < j < report.len() && #[trigger] report[i].1 == #[trigger] report[j].1
                ==> name_first_differs_lower(report[i].0, report[j].0),
{
    assert forall|i: int, j: int|
        0 <= i < j < report.len() && #[trigger] report[i].1 == #[trigger] report[j].1 implies name_first_differs_lower(
        report[i].0,
        report[j].0,
    ) by {
        assert(reported_before(report[i], report[j]));
        lemma_chars_less_first_difference(report[i].0, report[j].0);
    }
    assert forall|i: int, j: int| 0 <= i < j < report.len() implies #[trigger] report[i].1 >= #[trigger] report[j].1 by {
        assert(reported_before(report[i], report[j]));
    }
}

/// A copy of a language total.
fn copy_total(t: &LanguageTotal) -> (copy: LanguageTotal)
    ensures
        copy@ == t@,
{
    LanguageTotal { language: t.language.clone(), sloc: t.sloc }
}

/// Whether `a` is reported before `b` (see `reported_before`).
fn precedes_in_report(a: &LanguageTotal, b: &LanguageTotal) -> (before: bool)
    ensures
        before == reported_before(a@, b@),
{
    if a.sloc != b.sloc {
        return a.sloc > b.sloc;
    }
    let a_name = chars_of(a.language.as_str());
    let b_name = chars_of(b.language.as_str());
    chars_precede(&a_name, &b_name)
}

/// Per-language line totals, and their sum.
pub struct ProjectTotals {
    total_sloc: usize,
    by_language: Vec<LanguageTotal>,
}

impl View for ProjectTotals {
    type V = (nat, Seq<LanguageEntry>);

    closed spec fn view(&self) -> (nat, Seq<LanguageEntry>) {
        (self.total_sloc as nat, entries_of(self.by_language@))
    }
}

impl ProjectTotals {
    #[verifier::type_invariant]
    closed spec fn totals_agree(self) -> bool {
        consistent(self@.0, self@.1)
    }

    /// No files counted yet.
    pub fn new() -> (totals: Self)
        ensures
            totals@ == (0nat, Seq::<LanguageEntry>::empty()),
    {
        let totals = ProjectTotals { total_sloc: 0, by_language: Vec::new() };
        assert(totals@.1 =~= Seq::<LanguageEntry>::empty());
        totals
    }

    /// Counts `files`, each a language and its lines, in order: the total is
    /// the sum of all lines, and each language has the sum of the lines of
    /// its files.
    pub fn from_files(files: &Vec<LanguageTotal>) -> (totals: Self)
        requires
            sum_counts(entries_of(files@)) <= usize::MAX,
        ensures
            totals@ == (sum_counts(entries_of(files@)), tallied(entries_of(files@))),
            forall|language: Seq<char>| #[trigger] lines_of(totals@.1, language) == lines_in(entries_of(files@), language),
            consistent(totals@.0, totals@.1),
    {
        let ghost all = entries_of(files@);
        let mut totals = ProjectTotals::new();
        let mut i: usize = 0;
        assert(all.take(0) =~= Seq::<LanguageEntry>::empty());
        while i < files.len()
            invariant
                all == entries_of(files@),
                sum_counts(all) <= usize::MAX,
                i <= files@.len(),
                totals@ == (sum_counts(all.take(i as int)), tallied(all.take(i as int))),
                consistent(totals@.0, totals@.1),
                forall|language: Seq<char>| #[trigger] lines_of(totals@.1, language) == lines_in(all.take(i as int), language),
            decreases files@.len() - i,
        {
            let ghost before = totals@;
            let ghost prefix = all.take(i + 1);
            assert(prefix.drop_last() =~= all.take(i as int));
            assert(prefix.last() == files@[i as int]@);
            proof {
                lemma_prefix_sum_le(all, i + 1);
            }
            totals.add_file(files[i].language.as_str(), files[i].sloc);
            assert forall|language: Seq<char>| #[trigger] lines_of(totals@.1, language) == lines_in(prefix, language) by {
                lemma_with_file_lines_of(before.0, before.1, files@[i as int].language@, files@[i as int].sloc as nat, language);
            }
            i = i + 1;
        }
        assert(all.take(files@.len() as int) =~= all);
        totals
    }

    /// The total number of lines counted.
    pub fn total_sloc(&self) -> (total: usize)
        ensures
            total == self@.0,
            consistent(self@.0, self@.1),
    {
        proof {
            use_type_invariant(self);
        }
        self.total_sloc
    }

    /// The per-language totals, in the order the languages were first seen.
    pub fn languages(&self) -> (languages: Vec<LanguageTotal>)
        ensures
            entries_of(languages@) == self@.1,
            consistent(self@.0, self@.1),
    {
        proof {
            use_type_invariant(self);
        }
        let mut copies: Vec<LanguageTotal> = Vec::new();
        let mut i: usize = 0;
        while i < self.by_language.len()
            invariant
                i <= self.by_language@.len(),
                copies@.len() == i,
                entries_of(copies@) == entries_of(self.by_language@).take(i as int),
            decreases self.by_language@.len() - i,
        {
            let ghost before = copies@;
            let copy = copy_total(&self.by_language[i]);
            copies.push(copy);
            assert(copies@ == before.push(copy));
            assert forall|k: int| 0 <= k < i + 1 implies entries_of(copies@)[k] == entries_of(self.by_language@)[k] by {
                if k < i {
                    assert(entries_of(before)[k] == entries_of(self.by_language@).take(i as int)[k]);
                }
            }
            assert(entries_of(copies@) =~= entries_of(self.by_language@).take(i + 1));
            i = i + 1;
        }
        assert(entries_of(self.by_language@).take(i as int) =~= entries_of(self.by_language@));
        copies
    }

    /// The per-language totals as they are reported: more lines first, and
    /// languages with equal counts by name.
    pub fn sorted_languages(&self) -> (report: Vec<LanguageTotal>)
        ensures
            entries_of(report@).to_multiset() == self@.1.to_multiset(),
            report@.len() == self@.1.len(),
            report_ordered(entries_of(report@)),
            forall|i: int, j: int| 0 <= i < j < report@.len() ==> #[trigger] report@[i].sloc >= #[trigger] report@[j].sloc,
    {
        proof {
            use_type_invariant(self);
        }
        let ghost entries = self@.1;
        let n: usize = self.by_language.len();
        let mut report: Vec<LanguageTotal> = Vec::new();
        let mut k: usize = 0;
        assert(entries.take(0).to_multiset() =~= entries_of(report@).to_multiset()) by {
            broadcast use vstd::seq_lib::group_to_multiset_ensures;
            assert(entries.take(0) =~= entries_of(report@));
        }
        while k < n
            invariant
                n == self.by_language@.len(),
                entries == entries_of(self.by_language@),
                distinct_languages(entries),
                k <= n,
                report@.len() == k,
                report_ordered(entries_of(report@)),
                entries_of(report@).to_multiset() == entries.take(k as int).to_multiset(),
            decreases n - k,
        {
            let entry = copy_total(&self.by_language[k]);
            let ghost listed = entries_of(report@);
            assert forall|q: int| 0 <= q < listed.len() implies (#[trigger] listed[q]).0 != entry@.0 by {
                broadcast use vstd::seq_lib::group_to_multiset_ensures;
                assert(listed.contains(listed[q]));
                assert(entries.take(k as int).to_multiset().count(listed[q]) > 0);
                assert(entries.take(k as int).contains(listed[q]));
                let j: int = choose|j: int| 0 <= j < k && entries.take(k as int)[j] == listed[q];
                assert(entries[j] == listed[q]);
                assert(entries[k as int] == entry@);
            }
            let mut p: usize = 0;
            while p < report.len() && !precedes_in_report(&entry, &report[p])
                invariant
                    p <= report@.len(),
                    listed == entries_of(report@),
                    forall|q: int| 0 <= q < p ==> !reported_before(entry@, #[trigger] listed[q]),
                decreases report@.len() - p,
            {
                p = p + 1;
            }
            proof {
                assert forall|q: int| 0 <= q < p implies reported_before(#[trigger] listed[q], entry@) by {
                    assert(!reported_before(entry@, listed[q]));
                    assert(listed[q].0 != entry@.0);
                    lemma_chars_less_total(listed[q].0, entry@.0);
                }
                assert forall|q: int| p <= q < listed.len() implies reported_before(entry@, #[trigger] listed[q]) by {
                    assert(reported_before(entry@, listed[p as int]));
                    if q > p {
                        assert(reported_before(listed[p as int], listed[q]));
                        if entry@.1 == listed[p as int].1 && listed[p as int].1 == listed[q].1 {
                            lemma_chars_less_transitive(entry@.0, listed[p as int].0, listed[q].0);
                        }
                    }
                }
            }
            report.insert(p, entry);
            proof {
                broadcast use vstd::seq_lib::group_to_multiset_ensures;
                let grown = entries_of(report@);
                assert(grown =~= listed.insert(p as int, entry@));
                assert(entries.take(k + 1) =~= entries.take(k as int).push(entries[k as int]));
                assert forall|i: int, j: int| 0 <= i < j < grown.len() implies reported_before(
                    #[trigger] grown[i],
                    #[trigger] grown[j],
                ) by {
                    if i < p && j < p {
                        assert(grown[i] == listed[i] && grown[j] == listed[j]);
                    } else if i < p && j == p {
                        assert(grown[i] == listed[i]);
                    } else if i < p {
                        assert(grown[i] == listed[i] && grown[j] == listed[j - 1]);
                        assert(reported_before(listed[i], entry@));
                        assert(reported_before(entry@, listed[j - 1]));
                        if listed[i].1 == entry@.1 && entry@.1 == listed[j - 1].1 {
                            lemma_chars_less_transitive(listed[i].0, entry@.0, listed[j - 1].0);
                        }
                    } else if i == p {
                        assert(grown[j] == listed[j - 1]);
                    } else {
                        assert(grown[i] == listed[i - 1] && grown[j] == listed[j - 1]);
                    }
                }
            }
            k = k + 1;
        }
        assert(entries.take(n as int) =~= entries);
        proof {
            broadcast use vstd::seq_lib::group_to_multiset_ensures;
            lemma_report_by_lines_then_name(entries_of(report@));
            assert forall|i: int, j: int| 0 <= i < j < report@.len() implies #[trigger] report@[i].sloc
                >= #[trigger] report@[j].sloc by {
                assert(entries_of(report@)[i].1 >= entries_of(report@)[j].1);
            }
        }
        report
    }

    /// Counts a file of `sloc` lines in `language`: the project total grows by
    /// `sloc`, and so does the language's entry, which is added (with `sloc`
    /// lines) when the language is new.
    pub fn add_file(&mut self, language: &str, sloc: usize)
        requires
            old(self)@.0 + sloc <= usize::MAX,
        ensures
            final(self)@.0 == old(self)@.0 + sloc,
            final(self)@.1 == with_file(old(self)@.1, language@, sloc as nat),
            consistent(final(self)@.0, final(self)@.1),
    {
        proof {
            use_type_invariant(&*self);
            lemma_with_file_consistent(self@.0, self@.1, language@, sloc as nat);
        }
        let ghost before = self@.1;
        let ghost total = self@.0;
        let name = String::from_str(language);
        let mut i: usize = 0;
        let n: usize = self.by_language.len();
        while i < n
            invariant
                n == self.by_language@.len(),
                before == entries_of(self.by_language@),
                self@ == (total, before),
                consistent(total, before),
                consistent(total + sloc as nat, with_file(before, language@, sloc as nat)),
                old(self)@ == (total, before),
                total + sloc <= usize::MAX,
                i <= n,
                name@ == language@,
                forall|k: int| 0 <= k < i ==> (#[trigger] before[k]).0 != language@,
            decreases n - i,
        {
            if self.by_language[i].language == name {
                assert(before[i as int].0 == language@);
                assert(has_language(before, language@));
                let ghost p = position_of(before, language@);
                assert(p == i) by {
                    if p != i {
                        assert(before[p].0 != before[i as int].0);
                    }
                }
                proof {
                    lemma_entry_le_sum(before, i as int);
                }
                let mut taken = ProjectTotals::new();
                std::mem::swap(self, &mut taken);
                let ProjectTotals { total_sloc, by_language: mut entries } = taken;
                let grown: usize = entries[i].sloc + sloc;
                entries.set(i, LanguageTotal { language: name, sloc: grown });
                assert(entries_of(entries@) =~= with_file(before, language@, sloc as nat));
                *self = ProjectTotals { total_sloc: total_sloc + sloc, by_language: entries };
                return;
            }
            i = i + 1;
        }
        assert(!has_language(before, language@));
        let mut taken = ProjectTotals::new();
        std::mem::swap(self, &mut taken);
        let ProjectTotals { total_sloc, by_language: mut entries } = taken;
        entries.push(LanguageTotal { language: name, sloc });
        assert(entries_of(entries@) =~= with_file(before, language@, sloc as nat));
        *self = ProjectTotals { total_sloc: total_sloc + sloc, by_language: entries };
    }
}

} // verus!
