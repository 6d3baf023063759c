//! Character-level helpers on strings.

use vstd::prelude::*;

verus! {

/// The characters of `s`, in order.
pub fn chars_of(s: &str) -> (chars: Vec<char>)
    ensures
        chars@ == s@,
{
    let mut chars: Vec<char> = Vec::new();
    for c in it: s.chars()
        invariant
            chars@ == it.seq().take(it.index() as int),
    {
        chars.push(c);
    }
    chars
}

/// `needle` occurs in `haystack` as a contiguous run of characters.
pub open spec fn contains_run(haystack: Seq<char>, needle: Seq<char>) -> bool {
    exists|i: int|
        0 <= i && i + needle.len() <= haystack.len() && #[trigger] haystack.subrange(i, i + needle.len())
            == needle
}

/// The code of `c` after ASCII lowercasing: `A`..`Z` move to `a`..`z`, every
/// other character keeps its code.
pub open spec fn ascii_lower_code(c: char) -> u32 {
    if 'A' <= c && c <= 'Z' {
        (c as u32 + 32) as u32
    } else {
        c as u32
    }
}

/// `text`, ASCII-lowercased, is exactly `lower`.
pub open spec fn ascii_lowercase_is(text: Seq<char>, lower: Seq<char>) -> bool {
    &&& text.len() == lower.len()
    &&& forall|i: int| 0 <= i < text.len() ==> ascii_lower_code(#[trigger] text[i]) == lower[i] as u32
}

/// A run is found wherever it stands: `needle` occurs in any text made of some
/// text `before`, `needle` itself and some text `after`.
pub proof fn lemma_run_found_anywhere(before: Seq<char>, needle: Seq<char>, after: Seq<char>)
    ensures
        contains_run(before + needle + after, needle),
{
    let text = before + needle + after;
    let i = before.len() as int;
    assert(text.subrange(i, i + needle.len()) =~= needle);
}

/// Text around a run does not hide it: if `needle` occurs in `haystack`, it
/// occurs in `before + haystack + after`; and a run found at position `i` of
/// the characters is a run of them.
pub proof fn lemma_run_survives_context(before: Seq<char>, haystack: Seq<char>, after: Seq<char>, needle: Seq<char>)
    requires
        contains_run(haystack, needle),
    ensures
        contains_run(before + haystack + after, needle),
{
    let i = choose|i: int|
        0 <= i && i + needle.len() <= haystack.len() && #[trigger] haystack.subrange(i, i + needle.len())
            == needle;
    let text = before + haystack + after;
    let j = before.len() + i;
    assert(text.subrange(j, j + needle.len()) =~= haystack.subrange(i, i + needle.len()));
}

/// Whether `needle` occurs in `haystack`.
pub fn contains_chars(haystack: &Vec<char>, needle: &Vec<char>) -> (found: bool)
    ensures
        found == contains_run(haystack@, needle@),
{
    let h: usize = haystack.len();
    let n: usize = needle.len();
    if n > h {
        return false;
    }
    if n == 0 {
        assert(haystack@.subrange(0int, 0int + needle@.len()) =~= needle@);
        return true;
    }
    let mut i: usize = 0;
    while i <= h - n
        invariant
            h == haystack@.len(),
            n == needle@.len(),
            0 < n <= h,
            i <= h - n + 1,
            forall|k: int| 0 <= k < i ==> #[trigger] haystack@.subrange(k, k + n) != needle@,
        decreases h - n + 1 - i,
    {
        let mut j: usize = 0;
        let mut same = true;
        while j < n && same
            invariant
                h == haystack@.len(),
                n == needle@.len(),
                i + n <= h,
                j <= n,
                same ==> forall|m: int| 0 <= m < j ==> haystack@[i + m] == needle@[m],
                !same ==> haystack@.subrange(i as int, i + n) != needle@,
            decreases n - j,
        {
            if haystack[i + j] != needle[j] {
                assert(haystack@.subrange(i as int, i + n)[j as int] != needle@[j as int]);
                same = false;
                j = n;
            } else {
                j = j + 1;
            }
        }
        if same {
            assert(haystack@.subrange(i as int, i + n) =~= needle@);
            return true;
        }
        i = i + 1;
    }
    assert forall|k: int| 0 <= k && k + n <= h implies #[trigger] haystack@.subrange(k, k + n) != needle@ by {
        assert(k < i);
    }
    false
}

/// Whether `text`, ASCII-lowercased, equals `lower`.
pub fn ascii_lowercase_equals(text: &Vec<char>, lower: &str) -> (equal: bool)
    ensures
        equal == ascii_lowercase_is(text@, lower@),
{
    let expected = chars_of(lower);
    if text.len() != expected.len() {
        return false;
    }
    let mut i: usize = 0;
    while i < text.len()
        invariant
            expected@ == lower@,
            text@.len() == expected@.len(),
            i <= text@.len(),
            forall|k: int| 0 <= k < i ==> ascii_lower_code(#[trigger] text@[k]) == expected@[k] as u32,
        decreases text@.len() - i,
    {
        let c = text[i];
        let code: u32 = if 'A' <= c && c <= 'Z' { c as u32 + 32 } else { c as u32 };
        if code != expected[i] as u32 {
            return false;
        }
        i = i + 1;
    }
    true
}

/// `a` comes strictly before `b` in lexicographic order of character codes,
/// the order in which Rust compares strings.
pub open spec fn chars_less(a: Seq<char>, b: Seq<char>) -> bool
    decreases a.len(),
{
    if a.len() == 0 {
        b.len() > 0
    } else if b.len() == 0 {
        false
    } else if a[0] != b[0] {
        a[0] < b[0]
    } else {
        chars_less(a.drop_first(), b.drop_first())
    }
}

/// The order is transitive.
pub proof fn lemma_chars_less_transitive(a: Seq<char>, b: Seq<char>, c: Seq<char>)
    requires
        chars_less(a, b),
        chars_less(b, c),
    ensures
        chars_less(a, c),
    decreases a.len(),
{
    if a.len() > 0 && b.len() > 0 && c.len() > 0 && a[0] == b[0] && b[0] == c[0] {
        lemma_chars_less_transitive(a.drop_first(), b.drop_first(), c.drop_first());
    }
}

/// The order is total on distinct strings.
pub proof fn lemma_chars_less_total(a: Seq<char>, b: Seq<char>)
    requires
        a != b,
    ensures
        chars_less(a, b) || chars_less(b, a),
    decreases a.len(),
{
    if a.len() > 0 && b.len() > 0 && a[0] == b[0] {
        if a.drop_first() == b.drop_first() {
            assert(a =~= seq![a[0]] + a.drop_first());
            assert(b =~= seq![b[0]] + b.drop_first());
        }
        lemma_chars_less_total(a.drop_first(), b.drop_first());
    } else if a.len() == 0 && b.len() == 0 {
        assert(a =~= b);
    }
}

/// The order is irreflexive and asymmetric.
pub proof fn lemma_chars_less_asymmetric(a: Seq<char>, b: Seq<char>)
    requires
        chars_less(a, b),
    ensures
        !chars_less(b, a),
        a != b,
    decreases a.len(),
{
    if a.len() > 0 && b.len() > 0 && a[0] == b[0] {
        lemma_chars_less_asymmetric(a.drop_first(), b.drop_first());
    }
}

/// Whether `a` comes strictly before `b` (see `chars_less`).
pub fn chars_precede(a: &Vec<char>, b: &Vec<char>) -> (before: bool)
    ensures
        before == chars_less(a@, b@),
{
    let mut i: usize = 0;
    assert(a@.skip(0) =~= a@);
    assert(b@.skip(0) =~= b@);
    while i < a.len() && i < b.len()
        invariant
            i <= a@.len(),
            i <= b@.len(),
            chars_less(a@, b@) == chars_less(a@.skip(i as int), b@.skip(i as int)),
        decreases a@.len() - i,
    {
        if a[i] != b[i] {
            return a[i] < b[i];
        }
        assert(a@.skip(i as int).drop_first() =~= a@.skip(i + 1));
        assert(b@.skip(i as int).drop_first() =~= b@.skip(i + 1));
        i = i + 1;
    }
    i == a.len() && i < b.len()
}

} // verus!
