//! Verified primitives over character sequences: substring search, maximal
//! whitespace-delimited word splitting, line splitting, trimming and joining.
//!
//! Each executable function is proved against a spec-level model stated over
//! `Seq<char>`; the analyzers' contracts are phrased in those models.

use crate::unicode::{char_is_ws, is_ws};
use vstd::prelude::*;

verus! {

// ----------------------------------------------------------------------------
// Views of vectors of text
// ----------------------------------------------------------------------------

/// The spec-level views of a vector of character vectors.
pub open spec fn views_of(vs: Seq<Vec<char>>) -> Seq<Seq<char>> {
    vs.map_values(|v: Vec<char>| v@)
}

/// The spec-level views of a vector of strings.
pub open spec fn str_views(vs: Seq<String>) -> Seq<Seq<char>> {
    vs.map_values(|s: String| s@)
}

// ----------------------------------------------------------------------------
// Substring search
// ----------------------------------------------------------------------------

/// `p` occurs in `s` at position `i`.
pub open spec fn sub_at(s: Seq<char>, p: Seq<char>, i: int) -> bool {
    0 <= i && i + p.len() <= s.len() && s.subrange(i, i + p.len() as int) == p
}

/// `p` occurs somewhere in `s`.
pub open spec fn has_sub(s: Seq<char>, p: Seq<char>) -> bool {
    exists|i: int| sub_at(s, p, i)
}

/// The first position at which `p` occurs in `s`, or -1 if it never does.
pub open spec fn first_sub(s: Seq<char>, p: Seq<char>) -> int
    decreases s.len(),
{
    if sub_at(s, p, 0) {
        0
    } else if s.len() == 0 {
        -1
    } else {
        let r = first_sub(s.drop_first(), p);
        if r < 0 {
            -1
        } else {
            r + 1
        }
    }
}

/// Occurrences shift by one position when the first character is dropped.
proof fn lemma_sub_at_shift(s: Seq<char>, p: Seq<char>, i: int)
    requires
        s.len() > 0,
        0 <= i,
    ensures
        sub_at(s, p, i + 1) == sub_at(s.drop_first(), p, i),
{
    if i + 1 + p.len() <= s.len() {
        assert(s.subrange(i + 1, i + 1 + p.len() as int) =~= s.drop_first().subrange(
            i,
            i + p.len() as int,
        ));
    }
}

/// `first_sub` is the least occurrence position, and is -1 exactly when
/// `p` does not occur in `s`.
pub proof fn lemma_first_sub(s: Seq<char>, p: Seq<char>)
    ensures
        has_sub(s, p) ==> 0 <= first_sub(s, p) && sub_at(s, p, first_sub(s, p)) && (forall|j: int|
            0 <= j < first_sub(s, p) ==> !sub_at(s, p, j)),
        !has_sub(s, p) ==> first_sub(s, p) == -1,
    decreases s.len(),
{
    if sub_at(s, p, 0) {
    } else if s.len() == 0 {
        assert forall|i: int| !sub_at(s, p, i) by {
            if i != 0 && sub_at(s, p, i) {
                assert(i + p.len() <= 0 && i >= 1);
            }
        }
    } else {
        lemma_first_sub(s.drop_first(), p);
        assert forall|i: int| 0 <= i implies sub_at(s, p, i + 1) == sub_at(
            s.drop_first(),
            p,
            i,
        ) by {
            lemma_sub_at_shift(s, p, i);
        }
        if has_sub(s, p) {
            let w = choose|i: int| sub_at(s, p, i);
            assert(w >= 1);
            assert(sub_at(s.drop_first(), p, w - 1));
            assert(has_sub(s.drop_first(), p));
            let f = first_sub(s.drop_first(), p);
            assert(sub_at(s, p, f + 1));
            assert forall|j: int| 0 <= j < f + 1 implies !sub_at(s, p, j) by {
                if j >= 1 {
                    assert(!sub_at(s.drop_first(), p, j - 1));
                }
            }
        } else {
            if has_sub(s.drop_first(), p) {
                let w = choose|i: int| sub_at(s.drop_first(), p, i);
                assert(w >= 0);
                assert(sub_at(s, p, w + 1));
            }
        }
    }
}

/// The number of non-overlapping occurrences of `p` in `s`, scanning from the
/// left, as `str::matches` counts them.
pub open spec fn match_count(s: Seq<char>, p: Seq<char>) -> int
    decreases s.len(),
{
    if p.len() == 0 || s.len() < p.len() {
        0
    } else if sub_at(s, p, 0) {
        1 + match_count(s.skip(p.len() as int), p)
    } else {
        match_count(s.drop_first(), p)
    }
}

pub proof fn lemma_match_count_le(s: Seq<char>, p: Seq<char>)
    ensures
        0 <= match_count(s, p) <= s.len(),
    decreases s.len(),
{
    if p.len() == 0 || s.len() < p.len() {
    } else if sub_at(s, p, 0) {
        lemma_match_count_le(s.skip(p.len() as int), p);
    } else {
        lemma_match_count_le(s.drop_first(), p);
    }
}

/// Whether `a` and `b` hold the same characters.
pub(crate) fn seqs_eq(a: &Vec<char>, b: &Vec<char>) -> (r: bool)
    ensures
        r == (a@ == b@),
{
    if a.len() != b.len() {
        return false;
    }
    let mut i: usize = 0;
    while i < a.len()
        invariant
            a@.len() == b@.len(),
            i <= a@.len(),
            forall|k: int| 0 <= k < i ==> a@[k] == b@[k],
        decreases a@.len() - i,
    {
        if a[i] != b[i] {
            return false;
        }
        i += 1;
    }
    proof {
        assert(a@ =~= b@);
    }
    true
}

/// Whether `p` occurs in `s` at position `i`.
pub(crate) fn is_match_at(s: &Vec<char>, p: &Vec<char>, i: usize) -> (r: bool)
    requires
        i + p@.len() <= s@.len(),
    ensures
        r == sub_at(s@, p@, i as int),
{
    let _n: usize = s.len();
    let mut j: usize = 0;
    while j < p.len()
        invariant
            i + p@.len() <= s@.len(),
            s@.len() <= usize::MAX,
            j <= p@.len(),
            forall|k: int| 0 <= k < j ==> s@[i + k] == p@[k],
        decreases p@.len() - j,
    {
        if s[i + j] != p[j] {
            proof {
                if sub_at(s@, p@, i as int) {
                    assert(s@.subrange(i as int, i + p@.len() as int)[j as int] == p@[j as int]);
                }
            }
            return false;
        }
        j += 1;
    }
    proof {
        assert(s@.subrange(i as int, i + p@.len() as int) =~= p@);
    }
    true
}

/// The first occurrence of `p` in `s`, as `str::find` reports it.
pub(crate) fn find_first(s: &Vec<char>, p: &Vec<char>) -> (r: Option<usize>)
    requires
        p@.len() >= 1,
    ensures
        first_sub(s@, p@) >= 0 ==> r == Some(first_sub(s@, p@) as usize),
        first_sub(s@, p@) < 0 ==> r is None,
        r is Some <==> has_sub(s@, p@),
        r matches Some(i) ==> sub_at(s@, p@, i as int),
{
    proof {
        lemma_first_sub(s@, p@);
    }
    if s.len() < p.len() {
        proof {
            assert forall|j: int| !sub_at(s@, p@, j) by {}
        }
        return None;
    }
    let mut i: usize = 0;
    while i <= s.len() - p.len()
        invariant
            p@.len() >= 1,
            p@.len() <= s@.len(),
            i <= s@.len() - p@.len() + 1,
            forall|j: int| 0 <= j < i ==> !sub_at(s@, p@, j),
        decreases s@.len() - i,
    {
        if is_match_at(s, p, i) {
            proof {
                lemma_first_sub(s@, p@);
                assert(sub_at(s@, p@, i as int));
                assert(has_sub(s@, p@));
                let f = first_sub(s@, p@);
                if (i as int) < f {
                    assert(!sub_at(s@, p@, i as int));
                }
                if f < i as int {
                    assert(!sub_at(s@, p@, f));
                }
                assert(i as int == f);
            }
            return Some(i);
        }
        i += 1;
    }
    proof {
        assert forall|j: int| !sub_at(s@, p@, j) by {
            if j >= i && sub_at(s@, p@, j) {
                assert(j + p@.len() <= s@.len());
            }
        }
        lemma_first_sub(s@, p@);
    }
    None
}

/// Whether `p` occurs anywhere in `s`, as `str::contains` reports it.
pub(crate) fn has_sub_exec(s: &Vec<char>, p: &Vec<char>) -> (r: bool)
    requires
        p@.len() >= 1,
    ensures
        r == has_sub(s@, p@),
{
    match find_first(s, p) {
        Some(_) => true,
        None => false,
    }
}

/// The number of non-overlapping occurrences of `p` in `s`.
pub(crate) fn count_matches(s: &Vec<char>, p: &Vec<char>) -> (r: usize)
    requires
        p@.len() >= 1,
    ensures
        r as int == match_count(s@, p@),
{
    let mut i: usize = 0;
    let mut count: usize = 0;
    proof {
        assert(s@.skip(0) =~= s@);
    }
    while s.len() - i >= p.len()
        invariant
            p@.len() >= 1,
            i <= s@.len(),
            count <= i,
            count + match_count(s@.skip(i as int), p@) == match_count(s@, p@),
        decreases s@.len() - i,
    {
        proof {
            assert(s@.skip(i as int).subrange(0, p@.len() as int) =~= s@.subrange(
                i as int,
                i + p@.len() as int,
            ));
        }
        if is_match_at(s, p, i) {
            proof {
                assert(sub_at(s@.skip(i as int), p@, 0));
                assert(s@.skip(i as int).skip(p@.len() as int) =~= s@.skip(
                    i + p@.len() as int,
                ));
            }
            count += 1;
            i += p.len();
        } else {
            proof {
                assert(!sub_at(s@.skip(i as int), p@, 0));
                assert(s@.skip(i as int).drop_first() =~= s@.skip(i as int + 1));
            }
            i += 1;
        }
    }
    proof {
        assert(match_count(s@.skip(i as int), p@) == 0);
    }
    count
}

// ----------------------------------------------------------------------------
// Words: maximal whitespace-delimited runs
// ----------------------------------------------------------------------------

/// The length of the maximal non-whitespace prefix of `s`.
pub open spec fn non_ws_prefix_len(s: Seq<char>) -> int
    decreases s.len(),
{
    if s.len() == 0 || is_ws(s[0]) {
        0
    } else {
        1 + non_ws_prefix_len(s.drop_first())
    }
}

pub proof fn lemma_npl_bounds(s: Seq<char>)
    ensures
        0 <= non_ws_prefix_len(s) <= s.len(),
    decreases s.len(),
{
    if s.len() > 0 && !is_ws(s[0]) {
        lemma_npl_bounds(s.drop_first());
    }
}

/// The maximal whitespace-delimited non-empty runs of `s`, in order: the
/// tokens `str::split_whitespace` yields.
pub open spec fn words_of(s: Seq<char>) -> Seq<Seq<char>>
    decreases s.len(),
    via words_of_dec
{
    if s.len() == 0 {
        Seq::empty()
    } else if is_ws(s[0]) {
        words_of(s.drop_first())
    } else {
        let k = non_ws_prefix_len(s);
        seq![s.subrange(0, k)] + words_of(s.skip(k))
    }
}

#[via_fn]
proof fn words_of_dec(s: Seq<char>) {
    lemma_npl_bounds(s);
    if s.len() > 0 && !is_ws(s[0]) {
        lemma_npl_bounds(s.drop_first());
        assert(non_ws_prefix_len(s) >= 1);
    }
}

/// `non_ws_prefix_len` is pinned by its pointwise characterisation.
pub proof fn lemma_npl_char(s: Seq<char>, j: int)
    requires
        0 <= j <= s.len(),
        forall|k: int| 0 <= k < j ==> !is_ws(s[k]),
        j == s.len() || is_ws(s[j]),
    ensures
        non_ws_prefix_len(s) == j,
    decreases j,
{
    if j == 0 {
    } else {
        assert(!is_ws(s[0]));
        assert forall|k: int| 0 <= k < j - 1 implies !is_ws(s.drop_first()[k]) by {
            assert(s.drop_first()[k] == s[k + 1]);
        }
        if j - 1 < s.drop_first().len() {
            assert(s.drop_first()[j - 1] == s[j]);
        }
        lemma_npl_char(s.drop_first(), j - 1);
    }
}

/// Dropping a leading whitespace character keeps the words.
pub proof fn lemma_words_skip_ws(s: Seq<char>, i: int)
    requires
        0 <= i < s.len(),
        is_ws(s[i]),
    ensures
        words_of(s.skip(i)) == words_of(s.skip(i + 1)),
{
    assert(s.skip(i)[0] == s[i]);
    assert(s.skip(i).drop_first() =~= s.skip(i + 1));
}

/// A maximal non-whitespace run `s[i..j]` is the next word of `s.skip(i)`.
pub proof fn lemma_words_decompose(s: Seq<char>, i: int, j: int)
    requires
        0 <= i < j <= s.len(),
        forall|k: int| i <= k < j ==> !is_ws(s[k]),
        j == s.len() || is_ws(s[j]),
    ensures
        words_of(s.skip(i)) == seq![s.subrange(i, j)] + words_of(s.skip(j)),
{
    let t = s.skip(i);
    assert(t[0] == s[i]);
    assert forall|k: int| 0 <= k < j - i implies !is_ws(t[k]) by {
        assert(t[k] == s[i + k]);
    }
    if j - i < t.len() {
        assert(t[j - i] == s[j]);
    }
    lemma_npl_char(t, j - i);
    assert(t.subrange(0, j - i) =~= s.subrange(i, j));
    assert(t.skip(j - i) =~= s.skip(j));
    assert(words_of(t) == seq![t.subrange(0, j - i)] + words_of(t.skip(j - i)));
}

/// Splits `s` into its maximal whitespace-delimited non-empty runs.
pub fn split_words(s: &Vec<char>) -> (r: Vec<Vec<char>>)
    ensures
        views_of(r@) == words_of(s@),
{
    let mut r: Vec<Vec<char>> = Vec::new();
    let mut i: usize = 0;
    proof {
        assert(s@.skip(0) =~= s@);
        assert(views_of(r@) + words_of(s@) =~= words_of(s@));
    }
    while i < s.len()
        invariant
            i <= s@.len(),
            words_of(s@) == views_of(r@) + words_of(s@.skip(i as int)),
        decreases s@.len() - i,
    {
        if char_is_ws(s[i]) {
            proof {
                lemma_words_skip_ws(s@, i as int);
            }
            i += 1;
        } else {
            let ghost start = i as int;
            let mut j: usize = i;
            let mut w: Vec<char> = Vec::new();
            proof {
                assert(w@ =~= s@.subrange(start, start));
            }
            loop
                invariant
                    i <= j <= s@.len(),
                    start == i as int,
                    i < s@.len(),
                    !is_ws(s@[start]),
                    forall|k: int| start <= k < j ==> !is_ws(s@[k]),
                    w@ == s@.subrange(start, j as int),
                ensures
                    i <= j <= s@.len(),
                    forall|k: int| start <= k < j ==> !is_ws(s@[k]),
                    j == s@.len() || is_ws(s@[j as int]),
                    w@ == s@.subrange(start, j as int),
                decreases s@.len() - j,
            {
                if j == s.len() {
                    break ;
                }
                let c = s[j];
                if char_is_ws(c) {
                    break ;
                }
                w.push(c);
                proof {
                    assert(s@.subrange(start, j + 1) =~= s@.subrange(start, j as int).push(
                        s@[j as int],
                    ));
                }
                j += 1;
            }
            proof {
                lemma_words_decompose(s@, i as int, j as int);
                assert(views_of(r@.push(w)) =~= views_of(r@).push(w@));
                assert(views_of(r@) + (seq![s@.subrange(i as int, j as int)] + words_of(
                    s@.skip(j as int),
                )) =~= views_of(r@.push(w)) + words_of(s@.skip(j as int)));
            }
            r.push(w);
            i = j;
        }
    }
    proof {
        assert(s@.skip(i as int) =~= Seq::<char>::empty());
        assert(views_of(r@) + words_of(s@.skip(i as int)) =~= views_of(r@));
    }
    r
}

/// No whitespace stands inside the maximal non-whitespace prefix.
proof fn lemma_npl_nonws(s: Seq<char>)
    ensures
        forall|m: int| 0 <= m < non_ws_prefix_len(s) ==> !is_ws(s[m]),
    decreases s.len(),
{
    if s.len() > 0 && !is_ws(s[0]) {
        lemma_npl_nonws(s.drop_first());
        lemma_npl_bounds(s.drop_first());
        assert forall|m: int| 0 <= m < non_ws_prefix_len(s) implies !is_ws(s[m]) by {
            if m > 0 {
                assert(s.drop_first()[m - 1] == s[m]);
            }
        }
    }
}

/// Every word is a non-empty run without whitespace: the splitting yields
/// maximal whitespace-delimited non-empty runs only.
pub proof fn lemma_words_nonempty(s: Seq<char>)
    ensures
        forall|i: int| 0 <= i < words_of(s).len() ==> words_of(s)[i].len() > 0,
        forall|i: int, k: int|
            0 <= i < words_of(s).len() && 0 <= k < words_of(s)[i].len() ==> !is_ws(
                #[trigger] words_of(s)[i][k],
            ),
    decreases s.len(),
{
    if s.len() == 0 {
        assert(words_of(s) =~= Seq::<Seq<char>>::empty());
    } else if is_ws(s[0]) {
        lemma_words_nonempty(s.drop_first());
        assert(words_of(s) == words_of(s.drop_first()));
        assert forall|i: int, m: int|
            0 <= i < words_of(s).len() && 0 <= m < words_of(s)[i].len() implies !is_ws(
            #[trigger] words_of(s)[i][m],
        ) by {
            assert(!is_ws(words_of(s.drop_first())[i][m]));
        }
    } else {
        let k = non_ws_prefix_len(s);
        lemma_npl_bounds(s);
        lemma_npl_bounds(s.drop_first());
        lemma_npl_nonws(s);
        lemma_words_nonempty(s.skip(k));
        let w = s.subrange(0, k);
        assert forall|i: int| 0 <= i < words_of(s).len() implies words_of(s)[i].len() > 0 by {
            if i == 0 {
                assert(words_of(s)[0] == w);
                assert(w.len() == k >= 1);
            } else {
                assert(words_of(s)[i] == words_of(s.skip(k))[i - 1]);
            }
        }
        assert forall|i: int, m: int|
            0 <= i < words_of(s).len() && 0 <= m < words_of(s)[i].len() implies !is_ws(
            #[trigger] words_of(s)[i][m],
        ) by {
            if i == 0 {
                assert(words_of(s)[0] == w);
                assert(w[m] == s[m]);
            } else {
                assert(words_of(s)[i] == words_of(s.skip(k))[i - 1]);
            }
        }
    }
}

// ----------------------------------------------------------------------------
// Total length of a sequence of texts
// ----------------------------------------------------------------------------

/// The summed length of a sequence of character sequences.
pub open spec fn total_len(vs: Seq<Seq<char>>) -> int
    decreases vs.len(),
{
    if vs.len() == 0 {
        0
    } else {
        total_len(vs.drop_last()) + vs.last().len()
    }
}

pub proof fn lemma_total_len_singleton(x: Seq<char>)
    ensures
        total_len(seq![x]) == x.len(),
{
    assert(seq![x].drop_last() =~= Seq::<Seq<char>>::empty());
    assert(total_len(Seq::<Seq<char>>::empty()) == 0);
}

pub proof fn lemma_total_len_add(a: Seq<Seq<char>>, b: Seq<Seq<char>>)
    ensures
        total_len(a + b) == total_len(a) + total_len(b),
    decreases b.len(),
{
    if b.len() == 0 {
        assert(a + b =~= a);
    } else {
        assert((a + b).drop_last() =~= a + b.drop_last());
        assert((a + b).last() == b.last());
        lemma_total_len_add(a, b.drop_last());
    }
}

/// A prefix never holds more characters than the whole.
pub proof fn lemma_total_len_take(vs: Seq<Seq<char>>, i: int)
    requires
        0 <= i <= vs.len(),
    ensures
        total_len(vs.take(i)) <= total_len(vs),
    decreases vs.len(),
{
    if i == vs.len() {
        assert(vs.take(i) =~= vs);
    } else {
        assert(vs.take(i) =~= vs.drop_last().take(i));
        lemma_total_len_take(vs.drop_last(), i);
    }
}

/// The words of `s` cannot hold more characters than `s` itself.
pub proof fn lemma_total_len_words(s: Seq<char>)
    ensures
        0 <= total_len(words_of(s)) <= s.len(),
    decreases s.len(),
{
    if s.len() == 0 {
    } else if is_ws(s[0]) {
        assert(words_of(s) == words_of(s.drop_first()));
        lemma_total_len_words(s.drop_first());
    } else {
        let k = non_ws_prefix_len(s);
        lemma_npl_bounds(s);
        lemma_npl_bounds(s.drop_first());
        assert(k >= 1);
        lemma_total_len_words(s.skip(k));
        lemma_total_len_add(seq![s.subrange(0, k)], words_of(s.skip(k)));
        lemma_total_len_singleton(s.subrange(0, k));
    }
}

// ----------------------------------------------------------------------------
// Lines
// ----------------------------------------------------------------------------

/// The length of the maximal prefix of `s` without a line feed.
pub open spec fn line_break(s: Seq<char>) -> int
    decreases s.len(),
{
    if s.len() == 0 || s[0] == '\n' {
        0
    } else {
        1 + line_break(s.drop_first())
    }
}

pub proof fn lemma_line_break_bounds(s: Seq<char>)
    ensures
        0 <= line_break(s) <= s.len(),
    decreases s.len(),
{
    if s.len() > 0 && s[0] != '\n' {
        lemma_line_break_bounds(s.drop_first());
    }
}

pub proof fn lemma_line_break_char(s: Seq<char>, j: int)
    requires
        0 <= j <= s.len(),
        forall|k: int| 0 <= k < j ==> s[k] != '\n',
        j == s.len() || s[j] == '\n',
    ensures
        line_break(s) == j,
    decreases j,
{
    if j == 0 {
    } else {
        assert(s[0] != '\n');
        assert forall|k: int| 0 <= k < j - 1 implies s.drop_first()[k] != '\n' by {
            assert(s.drop_first()[k] == s[k + 1]);
        }
        if j - 1 < s.drop_first().len() {
            assert(s.drop_first()[j - 1] == s[j]);
        }
        lemma_line_break_char(s.drop_first(), j - 1);
    }
}

/// A line-feed-terminated segment without its terminator, with one trailing
/// carriage return removed, as `str::lines` hands segments out.
pub open spec fn strip_cr(s: Seq<char>) -> Seq<char> {
    if s.len() > 0 && s.last() == '\r' {
        s.drop_last()
    } else {
        s
    }
}

/// The lines of `s`, as `str::lines` yields them: split at line feeds, the
/// terminator dropped, a carriage return before a line feed dropped, and no
/// empty segment after a final terminator.
pub open spec fn line_seqs(s: Seq<char>) -> Seq<Seq<char>>
    decreases s.len(),
    via line_seqs_dec
{
    if s.len() == 0 {
        Seq::empty()
    } else {
        let k = line_break(s);
        if k == s.len() {
            seq![s]
        } else {
            seq![strip_cr(s.subrange(0, k))] + line_seqs(s.skip(k + 1))
        }
    }
}

#[via_fn]
proof fn line_seqs_dec(s: Seq<char>) {
    lemma_line_break_bounds(s);
}

/// An unterminated tail `s[i..]` is one final line.
pub proof fn lemma_lines_terminal(s: Seq<char>, i: int)
    requires
        0 <= i < s.len(),
        forall|k: int| i <= k < s.len() ==> s[k] != '\n',
    ensures
        line_seqs(s.skip(i)) == seq![s.subrange(i, s.len() as int)],
{
    let t = s.skip(i);
    assert forall|k: int| 0 <= k < t.len() implies t[k] != '\n' by {
        assert(t[k] == s[i + k]);
    }
    lemma_line_break_char(t, t.len() as int);
    assert(t =~= s.subrange(i, s.len() as int));
}

/// A segment `s[i..j]` closed by a line feed at `j` is the next line of
/// `s.skip(i)`, with a trailing carriage return removed.
pub proof fn lemma_lines_decompose(s: Seq<char>, i: int, j: int)
    requires
        0 <= i <= j < s.len(),
        forall|k: int| i <= k < j ==> s[k] != '\n',
        s[j] == '\n',
    ensures
        line_seqs(s.skip(i)) == seq![strip_cr(s.subrange(i, j))] + line_seqs(s.skip(j + 1)),
{
    let t = s.skip(i);
    assert forall|k: int| 0 <= k < j - i implies t[k] != '\n' by {
        assert(t[k] == s[i + k]);
    }
    assert(t[j - i] == s[j]);
    lemma_line_break_char(t, j - i);
    assert(t.subrange(0, j - i) =~= s.subrange(i, j));
    assert(t.skip(j - i + 1) =~= s.skip(j + 1));
}

/// The lines of `s` cannot hold more characters than `s` itself.
pub proof fn lemma_total_len_lines(s: Seq<char>)
    ensures
        0 <= total_len(line_seqs(s)) <= s.len(),
    decreases s.len(),
{
    if s.len() == 0 {
    } else {
        let k = line_break(s);
        lemma_line_break_bounds(s);
        if k == s.len() {
            lemma_total_len_singleton(s);
        } else {
            let head = strip_cr(s.subrange(0, k));
            lemma_total_len_lines(s.skip(k + 1));
            lemma_total_len_add(seq![head], line_seqs(s.skip(k + 1)));
            lemma_total_len_singleton(head);
        }
    }
}

/// Splits `s` into its lines.
pub fn split_lines(s: &Vec<char>) -> (r: Vec<Vec<char>>)
    ensures
        views_of(r@) == line_seqs(s@),
{
    let mut r: Vec<Vec<char>> = Vec::new();
    let mut i: usize = 0;
    proof {
        assert(s@.skip(0) =~= s@);
        assert(views_of(r@) + line_seqs(s@) =~= line_seqs(s@));
    }
    while i < s.len()
        invariant
            i <= s@.len(),
            line_seqs(s@) == views_of(r@) + line_seqs(s@.skip(i as int)),
        decreases s@.len() - i,
    {
        let ghost start = i as int;
        let mut j: usize = i;
        let mut w: Vec<char> = Vec::new();
        proof {
            assert(w@ =~= s@.subrange(start, start));
        }
        loop
            invariant
                i <= j <= s@.len(),
                start == i as int,
                forall|k: int| start <= k < j ==> s@[k] != '\n',
                w@ == s@.subrange(start, j as int),
            ensures
                i <= j <= s@.len(),
                forall|k: int| start <= k < j ==> s@[k] != '\n',
                j == s@.len() || s@[j as int] == '\n',
                w@ == s@.subrange(start, j as int),
            decreases s@.len() - j,
        {
            if j == s.len() {
                break ;
            }
            let c = s[j];
            if c == '\n' {
                break ;
            }
            w.push(c);
            proof {
                assert(s@.subrange(start, j + 1) =~= s@.subrange(start, j as int).push(
                    s@[j as int],
                ));
            }
            j += 1;
        }
        if j == s.len() {
            proof {
                lemma_lines_terminal(s@, i as int);
                assert(views_of(r@.push(w)) =~= views_of(r@).push(w@));
                assert(views_of(r@) + seq![s@.subrange(i as int, s@.len() as int)] =~= views_of(
                    r@.push(w),
                ));
                assert(s@.skip(j as int) =~= Seq::<char>::empty());
                assert(views_of(r@.push(w)) + line_seqs(s@.skip(j as int)) =~= views_of(
                    r@.push(w),
                ));
            }
            r.push(w);
            i = j;
        } else {
            if w.len() > 0 && w[w.len() - 1] == '\r' {
                let _popped = w.pop();
            }
            proof {
                lemma_lines_decompose(s@, i as int, j as int);
                assert(w@ == strip_cr(s@.subrange(i as int, j as int)));
                assert(views_of(r@.push(w)) =~= views_of(r@).push(w@));
                assert(views_of(r@) + (seq![strip_cr(s@.subrange(i as int, j as int))]
                    + line_seqs(s@.skip(j + 1))) =~= views_of(r@.push(w)) + line_seqs(
                    s@.skip(j + 1),
                ));
            }
            r.push(w);
            i = j + 1;
        }
    }
    proof {
        assert(s@.skip(i as int) =~= Seq::<char>::empty());
        assert(views_of(r@) + line_seqs(s@.skip(i as int)) =~= views_of(r@));
    }
    r
}

// ----------------------------------------------------------------------------
// Trimming
// ----------------------------------------------------------------------------

/// `s` without its leading whitespace.
pub open spec fn trim_start_rec(s: Seq<char>) -> Seq<char>
    decreases s.len(),
{
    if s.len() > 0 && is_ws(s[0]) {
        trim_start_rec(s.drop_first())
    } else {
        s
    }
}

/// `s` without its trailing whitespace.
pub open spec fn trim_end_rec(s: Seq<char>) -> Seq<char>
    decreases s.len(),
{
    if s.len() > 0 && is_ws(s.last()) {
        trim_end_rec(s.drop_last())
    } else {
        s
    }
}

/// `s` without leading and trailing whitespace, as `str::trim` yields it.
pub open spec fn trim_of(s: Seq<char>) -> Seq<char> {
    trim_end_rec(trim_start_rec(s))
}

pub proof fn lemma_trim_start(s: Seq<char>, a: int)
    requires
        0 <= a <= s.len(),
        forall|k: int| 0 <= k < a ==> is_ws(s[k]),
        a == s.len() || !is_ws(s[a]),
    ensures
        trim_start_rec(s) == s.skip(a),
    decreases a,
{
    if a == 0 {
        assert(s.skip(0) =~= s);
    } else {
        assert(is_ws(s[0]));
        assert forall|k: int| 0 <= k < a - 1 implies is_ws(s.drop_first()[k]) by {
            assert(s.drop_first()[k] == s[k + 1]);
        }
        if a - 1 < s.drop_first().len() {
            assert(s.drop_first()[a - 1] == s[a]);
        }
        lemma_trim_start(s.drop_first(), a - 1);
        assert(s.drop_first().skip(a - 1) =~= s.skip(a));
    }
}

pub proof fn lemma_trim_end(s: Seq<char>, b: int)
    requires
        0 <= b <= s.len(),
        forall|k: int| b <= k < s.len() ==> is_ws(s[k]),
        b == 0 || !is_ws(s[b - 1]),
    ensures
        trim_end_rec(s) == s.take(b),
    decreases s.len(),
{
    if b == s.len() {
        if s.len() > 0 {
            assert(!is_ws(s.last()));
        }
        assert(s.take(b) =~= s);
    } else {
        assert(is_ws(s.last()));
        assert forall|k: int| b <= k < s.drop_last().len() implies is_ws(s.drop_last()[k]) by {
            assert(s.drop_last()[k] == s[k]);
        }
        if b > 0 {
            assert(s.drop_last()[b - 1] == s[b - 1]);
        }
        lemma_trim_end(s.drop_last(), b);
        assert(s.drop_last().take(b) =~= s.take(b));
    }
}

/// Removes leading and trailing whitespace.
pub fn trim_exec(s: &Vec<char>) -> (r: Vec<char>)
    ensures
        r@ == trim_of(s@),
{
    let mut a: usize = 0;
    loop
        invariant
            a <= s@.len(),
            forall|k: int| 0 <= k < a ==> is_ws(s@[k]),
        ensures
            a <= s@.len(),
            forall|k: int| 0 <= k < a ==> is_ws(s@[k]),
            a == s@.len() || !is_ws(s@[a as int]),
        decreases s@.len() - a,
    {
        if a == s.len() {
            break ;
        }
        if !char_is_ws(s[a]) {
            break ;
        }
        a += 1;
    }
    let mut b: usize = s.len();
    loop
        invariant
            a <= b <= s@.len(),
            a == s@.len() || !is_ws(s@[a as int]),
            forall|k: int| b <= k < s@.len() ==> is_ws(s@[k]),
        ensures
            a <= b <= s@.len(),
            forall|k: int| b <= k < s@.len() ==> is_ws(s@[k]),
            b == a || !is_ws(s@[b - 1]),
        decreases b,
    {
        if b == a {
            break ;
        }
        if !char_is_ws(s[b - 1]) {
            break ;
        }
        b -= 1;
    }
    let mut r: Vec<char> = Vec::new();
    let mut k: usize = a;
    proof {
        assert(r@ =~= s@.subrange(a as int, a as int));
    }
    while k < b
        invariant
            a <= k <= b <= s@.len(),
            r@ == s@.subrange(a as int, k as int),
        decreases b - k,
    {
        r.push(s[k]);
        proof {
            assert(s@.subrange(a as int, k + 1) =~= s@.subrange(a as int, k as int).push(
                s@[k as int],
            ));
        }
        k += 1;
    }
    proof {
        lemma_trim_start(s@, a as int);
        let t = s@.skip(a as int);
        if a == s@.len() {
            assert(t =~= Seq::<char>::empty());
            assert(r@ =~= t);
        } else {
            assert forall|k2: int| b - a <= k2 < t.len() implies is_ws(t[k2]) by {
                assert(t[k2] == s@[a + k2]);
            }
            if b > a {
                assert(t[b - a - 1] == s@[b - 1]);
            } else {
                assert(!is_ws(t[0]));
            }
            lemma_trim_end(t, b - a);
            assert(t.take(b - a) =~= s@.subrange(a as int, b as int));
        }
    }
    r
}

// ----------------------------------------------------------------------------
// Leading repeated characters
// ----------------------------------------------------------------------------

/// The number of leading occurrences of `c` in `s`.
pub open spec fn char_prefix_len(s: Seq<char>, c: char) -> int
    decreases s.len(),
{
    if s.len() > 0 && s[0] == c {
        1 + char_prefix_len(s.drop_first(), c)
    } else {
        0
    }
}

pub proof fn lemma_char_prefix_bounds(s: Seq<char>, c: char)
    ensures
        0 <= char_prefix_len(s, c) <= s.len(),
    decreases s.len(),
{
    if s.len() > 0 && s[0] == c {
        lemma_char_prefix_bounds(s.drop_first(), c);
    }
}

pub proof fn lemma_char_prefix_char(s: Seq<char>, c: char, j: int)
    requires
        0 <= j <= s.len(),
        forall|k: int| 0 <= k < j ==> s[k] == c,
        j == s.len() || s[j] != c,
    ensures
        char_prefix_len(s, c) == j,
    decreases j,
{
    if j == 0 {
    } else {
        assert(s[0] == c);
        assert forall|k: int| 0 <= k < j - 1 implies s.drop_first()[k] == c by {
            assert(s.drop_first()[k] == s[k + 1]);
        }
        if j - 1 < s.drop_first().len() {
            assert(s.drop_first()[j - 1] == s[j]);
        }
        lemma_char_prefix_char(s.drop_first(), c, j - 1);
    }
}

/// Counts the leading occurrences of `c`.
pub fn count_prefix_char(s: &Vec<char>, c: char) -> (r: usize)
    ensures
        r as int == char_prefix_len(s@, c),
{
    let mut a: usize = 0;
    loop
        invariant
            a <= s@.len(),
            forall|k: int| 0 <= k < a ==> s@[k] == c,
        ensures
            a <= s@.len(),
            forall|k: int| 0 <= k < a ==> s@[k] == c,
            a == s@.len() || s@[a as int] != c,
        decreases s@.len() - a,
    {
        if a == s.len() {
            break ;
        }
        if s[a] != c {
            break ;
        }
        a += 1;
    }
    proof {
        lemma_char_prefix_char(s@, c, a as int);
    }
    a
}

/// Copies the suffix of `s` from position `a` on.
pub fn skip_chars(s: &Vec<char>, a: usize) -> (r: Vec<char>)
    requires
        a <= s@.len(),
    ensures
        r@ == s@.skip(a as int),
{
    let mut r: Vec<char> = Vec::new();
    let mut k: usize = a;
    proof {
        assert(r@ =~= s@.subrange(a as int, a as int));
    }
    while k < s.len()
        invariant
            a <= k <= s@.len(),
            r@ == s@.subrange(a as int, k as int),
        decreases s@.len() - k,
    {
        r.push(s[k]);
        proof {
            assert(s@.subrange(a as int, k + 1) =~= s@.subrange(a as int, k as int).push(
                s@[k as int],
            ));
        }
        k += 1;
    }
    proof {
        assert(s@.subrange(a as int, s@.len() as int) =~= s@.skip(a as int));
    }
    r
}

/// Copies the prefix of `s` up to position `b`.
pub fn take_chars(s: &Vec<char>, b: usize) -> (r: Vec<char>)
    requires
        b <= s@.len(),
    ensures
        r@ == s@.take(b as int),
{
    let mut r: Vec<char> = Vec::new();
    let mut k: usize = 0;
    proof {
        assert(r@ =~= s@.subrange(0, 0));
    }
    while k < b
        invariant
            k <= b <= s@.len(),
            r@ == s@.subrange(0, k as int),
        decreases b - k,
    {
        r.push(s[k]);
        proof {
            assert(s@.subrange(0, k + 1) =~= s@.subrange(0, k as int).push(s@[k as int]));
        }
        k += 1;
    }
    r
}

// ----------------------------------------------------------------------------
// Concatenation and joining
// ----------------------------------------------------------------------------

/// Appends the characters of `src` to `dst`.
pub fn extend_chars(dst: &mut Vec<char>, src: &Vec<char>)
    ensures
        final(dst)@ == old(dst)@ + src@,
{
    let mut i: usize = 0;
    proof {
        assert(dst@ =~= old(dst)@ + src@.take(0));
    }
    while i < src.len()
        invariant
            i <= src@.len(),
            dst@ == old(dst)@ + src@.take(i as int),
        decreases src@.len() - i,
    {
        dst.push(src[i]);
        proof {
            assert(old(dst)@ + src@.take(i + 1) =~= (old(dst)@ + src@.take(i as int)).push(
                src@[i as int],
            ));
        }
        i += 1;
    }
    proof {
        assert(src@.take(src@.len() as int) =~= src@);
    }
}

/// Copies a character vector.
pub fn clone_chars(v: &Vec<char>) -> (r: Vec<char>)
    ensures
        r@ == v@,
{
    let mut r: Vec<char> = Vec::new();
    extend_chars(&mut r, v);
    proof {
        assert(Seq::<char>::empty() + v@ =~= v@);
    }
    r
}

/// The parts joined with `sep` between neighbours, as `[&str]::join` yields.
pub open spec fn join_with(parts: Seq<Seq<char>>, sep: Seq<char>) -> Seq<char>
    decreases parts.len(),
{
    if parts.len() == 0 {
        Seq::empty()
    } else if parts.len() == 1 {
        parts[0]
    } else {
        join_with(parts.drop_last(), sep) + sep + parts.last()
    }
}

/// Joins the parts with `sep` between neighbours.
pub fn join_chars(parts: &Vec<Vec<char>>, sep: &Vec<char>) -> (r: Vec<char>)
    ensures
        r@ == join_with(views_of(parts@), sep@),
{
    let mut r: Vec<char> = Vec::new();
    let mut i: usize = 0;
    proof {
        assert(views_of(parts@).take(0) =~= Seq::<Seq<char>>::empty());
        assert(r@ =~= join_with(views_of(parts@).take(0), sep@));
    }
    while i < parts.len()
        invariant
            i <= parts@.len(),
            r@ == join_with(views_of(parts@).take(i as int), sep@),
        decreases parts@.len() - i,
    {
        if i > 0 {
            extend_chars(&mut r, sep);
        }
        extend_chars(&mut r, &parts[i]);
        proof {
            let vs = views_of(parts@);
            assert(vs.take(i + 1).drop_last() =~= vs.take(i as int));
            assert(vs.take(i + 1).last() == parts@[i as int]@);
            if i == 0 {
                assert(vs.take(1)[0] == parts@[0]@);
                assert(join_with(vs.take(1), sep@) == parts@[0]@);
                assert(r@ =~= Seq::<char>::empty() + parts@[0]@);
            }
        }
        i += 1;
    }
    proof {
        assert(views_of(parts@).take(parts@.len() as int) =~= views_of(parts@));
    }
    r
}

} // verus!
