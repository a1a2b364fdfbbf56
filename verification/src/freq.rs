//! The word-frequency engine: case-insensitive, alphabetic-only token
//! frequency, ordered by count descending.
//!
//! Normalisation lowercases a token and removes every non-alphabetic
//! character; normal forms of two or fewer characters are discarded. Counts
//! accumulate per normal form in first-occurrence order, and the table is
//! then sorted by count descending; ties keep first-occurrence order (a
//! stable sort), which fixes a deterministic tie-break.

use crate::textops::{clone_chars, seqs_eq, views_of, words_of};
use crate::unicode::{char_is_alpha, chars_of, is_alpha, lower_of, lower_str, string_of};
use vstd::prelude::*;

verus! {

// ----------------------------------------------------------------------------
// Normalisation
// ----------------------------------------------------------------------------

/// The alphabetic characters of `s`, in order.
pub open spec fn alpha_only(s: Seq<char>) -> Seq<char>
    decreases s.len(),
{
    if s.len() == 0 {
        Seq::empty()
    } else if is_alpha(s.last()) {
        alpha_only(s.drop_last()).push(s.last())
    } else {
        alpha_only(s.drop_last())
    }
}

/// The frequency normal form of a token: lowercased, with every
/// non-alphabetic character removed.
pub open spec fn normal_form(s: Seq<char>) -> Seq<char> {
    alpha_only(lower_of(s))
}

/// Keeps the alphabetic characters of `s`.
pub(crate) fn alpha_only_exec(s: &Vec<char>) -> (r: Vec<char>)
    ensures
        r@ == alpha_only(s@),
{
    let mut r: Vec<char> = Vec::new();
    let mut i: usize = 0;
    proof {
        assert(s@.take(0) =~= Seq::<char>::empty());
        assert(r@ =~= alpha_only(s@.take(0)));
    }
    while i < s.len()
        invariant
            i <= s@.len(),
            r@ == alpha_only(s@.take(i as int)),
        decreases s@.len() - i,
    {
        proof {
            assert(s@.take(i + 1).drop_last() =~= s@.take(i as int));
            assert(s@.take(i + 1).last() == s@[i as int]);
        }
        if char_is_alpha(s[i]) {
            r.push(s[i]);
        }
        i += 1;
    }
    proof {
        assert(s@.take(s@.len() as int) =~= s@);
    }
    r
}

/// Normalises a token to its frequency normal form.
pub(crate) fn normalize_chars(w: &Vec<char>) -> (r: Vec<char>)
    ensures
        r@ == normal_form(w@),
{
    let ws = string_of(w);
    let low = lower_str(ws.as_str());
    let lv = chars_of(low.as_str());
    alpha_only_exec(&lv)
}

/// Normalises a word as the frequency engine does: lowercased, with every
/// non-alphabetic character removed.
pub fn normalize_word(w: &str) -> (r: String)
    ensures
        r@ == normal_form(w@),
{
    let wv = chars_of(w);
    let nf = normalize_chars(&wv);
    string_of(&nf)
}

/// Removing non-alphabetic characters is idempotent.
pub proof fn lemma_alpha_only_idempotent(s: Seq<char>)
    ensures
        alpha_only(alpha_only(s)) == alpha_only(s),
    decreases s.len(),
{
    if s.len() == 0 {
    } else {
        lemma_alpha_only_idempotent(s.drop_last());
        if is_alpha(s.last()) {
            let t = alpha_only(s.drop_last()).push(s.last());
            assert(t.drop_last() =~= alpha_only(s.drop_last()));
            assert(t.last() == s.last());
        }
    }
}

/// Normalisation is idempotent on every token whose normal form is a
/// fixpoint of the lowercase mapping (lowercasing leaves it unchanged).
pub proof fn lemma_normal_form_idempotent(s: Seq<char>)
    requires
        lower_of(normal_form(s)) == normal_form(s),
    ensures
        normal_form(normal_form(s)) == normal_form(s),
{
    lemma_alpha_only_idempotent(lower_of(s));
}

// ----------------------------------------------------------------------------
// The frequency table, in first-occurrence order
// ----------------------------------------------------------------------------

/// The spec-level views of a vector of (word, count) pairs.
pub open spec fn pair_views(es: Seq<(Vec<char>, usize)>) -> Seq<(Seq<char>, int)> {
    es.map_values(|p: (Vec<char>, usize)| (p.0@, p.1 as int))
}

/// Whether some entry of `es` carries the word `w`.
pub open spec fn has_key(es: Seq<(Seq<char>, int)>, w: Seq<char>) -> bool
    decreases es.len(),
{
    es.len() > 0 && (es.last().0 == w || has_key(es.drop_last(), w))
}

/// `es` with the count of the entry carrying `w` raised by one.
pub open spec fn bump_key(es: Seq<(Seq<char>, int)>, w: Seq<char>) -> Seq<(Seq<char>, int)>
    decreases es.len(),
{
    if es.len() == 0 {
        es
    } else if es.last().0 == w {
        es.drop_last().push((w, es.last().1 + 1))
    } else {
        bump_key(es.drop_last(), w).push(es.last())
    }
}

/// The frequency table of the given tokens, in first-occurrence order: each
/// token is normalised, normal forms of length two or less are discarded,
/// and equal normal forms accumulate one count per token.
pub open spec fn freq_entries(toks: Seq<Seq<char>>) -> Seq<(Seq<char>, int)>
    decreases toks.len(),
{
    if toks.len() == 0 {
        Seq::empty()
    } else {
        let prev = freq_entries(toks.drop_last());
        let w = normal_form(toks.last());
        if w.len() <= 2 {
            prev
        } else if has_key(prev, w) {
            bump_key(prev, w)
        } else {
            prev.push((w, 1))
        }
    }
}

pub proof fn lemma_has_key_iff(es: Seq<(Seq<char>, int)>, w: Seq<char>)
    ensures
        has_key(es, w) <==> exists|i: int| 0 <= i < es.len() && es[i].0 == w,
    decreases es.len(),
{
    if es.len() > 0 {
        lemma_has_key_iff(es.drop_last(), w);
        if es.last().0 == w {
            assert(es[es.len() - 1].0 == w);
        } else if has_key(es.drop_last(), w) {
            let i = choose|i: int| 0 <= i < es.drop_last().len() && es.drop_last()[i].0 == w;
            assert(es[i].0 == w);
        } else {
            assert forall|i: int| 0 <= i < es.len() implies es[i].0 != w by {
                if i < es.len() - 1 {
                    assert(es.drop_last()[i] == es[i]);
                }
            }
        }
    }
}

/// Bumping a key keeps every key in place.
proof fn lemma_bump_keys(es: Seq<(Seq<char>, int)>, w: Seq<char>)
    ensures
        bump_key(es, w).len() == es.len(),
        forall|i: int| 0 <= i < es.len() ==> bump_key(es, w)[i].0 == es[i].0,
    decreases es.len(),
{
    if es.len() == 0 {
    } else if es.last().0 == w {
        let b = es.drop_last().push((w, es.last().1 + 1));
        assert forall|i: int| 0 <= i < es.len() implies b[i].0 == es[i].0 by {
            if i < es.len() - 1 {
                assert(b[i] == es.drop_last()[i]);
                assert(es.drop_last()[i] == es[i]);
            }
        }
    } else {
        lemma_bump_keys(es.drop_last(), w);
        let b = bump_key(es.drop_last(), w).push(es.last());
        assert forall|i: int| 0 <= i < es.len() implies b[i].0 == es[i].0 by {
            if i < es.len() - 1 {
                assert(b[i] == bump_key(es.drop_last(), w)[i]);
                assert(es.drop_last()[i] == es[i]);
            }
        }
    }
}

/// With distinct keys, bumping the key of the entry at `i` updates exactly
/// that entry.
proof fn lemma_bump_at(es: Seq<(Seq<char>, int)>, i: int)
    requires
        0 <= i < es.len(),
        forall|a: int, b: int| 0 <= a < b < es.len() ==> es[a].0 != es[b].0,
    ensures
        bump_key(es, es[i].0) == es.update(i, (es[i].0, es[i].1 + 1)),
    decreases es.len(),
{
    let w = es[i].0;
    if i == es.len() - 1 {
        assert(es.last().0 == w);
        assert(es.drop_last().push((w, es.last().1 + 1)) =~= es.update(i, (w, es[i].1 + 1)));
    } else {
        assert(es.last().0 != w);
        assert forall|a: int, b: int|
            0 <= a < b < es.drop_last().len() implies es.drop_last()[a].0
            != es.drop_last()[b].0 by {
            assert(es.drop_last()[a] == es[a]);
            assert(es.drop_last()[b] == es[b]);
        }
        assert(es.drop_last()[i] == es[i]);
        lemma_bump_at(es.drop_last(), i);
        assert(es.drop_last().update(i, (w, es[i].1 + 1)).push(es.last()) =~= es.update(
            i,
            (w, es[i].1 + 1),
        ));
    }
}

/// Accumulates the frequency table of the given tokens, in first-occurrence
/// order.
pub(crate) fn freq_accumulate(words: &Vec<Vec<char>>) -> (r: Vec<(Vec<char>, usize)>)
    ensures
        pair_views(r@) == freq_entries(views_of(words@)),
{
    let mut acc: Vec<(Vec<char>, usize)> = Vec::new();
    let mut j: usize = 0;
    proof {
        assert(views_of(words@).take(0) =~= Seq::<Seq<char>>::empty());
        assert(pair_views(acc@) =~= freq_entries(views_of(words@).take(0)));
    }
    while j < words.len()
        invariant
            j <= words@.len(),
            pair_views(acc@) == freq_entries(views_of(words@).take(j as int)),
            forall|a: int, b: int| 0 <= a < b < acc@.len() ==> acc@[a].0@ != acc@[b].0@,
            forall|i: int| 0 <= i < acc@.len() ==> 0 < #[trigger] acc@[i].1 <= j,
        decreases words@.len() - j,
    {
        let nf = normalize_chars(&words[j]);
        let ghost nfv = nf@;
        proof {
            let tv = views_of(words@);
            assert(tv.take(j + 1).drop_last() =~= tv.take(j as int));
            assert(tv.take(j + 1).last() == tv[j as int]);
            assert(tv[j as int] == words@[j as int]@);
        }
        if nf.len() > 2 {
            let mut idx: usize = 0;
            let mut found = false;
            loop
                invariant
                    idx <= acc@.len(),
                    nfv == nf@,
                    !found ==> forall|k: int| 0 <= k < idx ==> acc@[k].0@ != nfv,
                    found ==> idx < acc@.len() && acc@[idx as int].0@ == nfv,
                ensures
                    found ==> idx < acc@.len() && acc@[idx as int].0@ == nfv,
                    !found ==> forall|k: int| 0 <= k < acc@.len() ==> acc@[k].0@ != nfv,
                decreases acc@.len() - idx,
            {
                if idx == acc.len() {
                    break ;
                }
                if seqs_eq(&acc[idx].0, &nf) {
                    found = true;
                    break ;
                }
                idx += 1;
            }
            let ghost prev = pair_views(acc@);
            if found {
                let c = acc[idx].1;
                proof {
                    assert(prev[idx as int].0 == nfv);
                    assert(prev[idx as int].1 == c as int);
                    lemma_has_key_iff(prev, nfv);
                    assert forall|a: int, b: int|
                        0 <= a < b < prev.len() implies prev[a].0 != prev[b].0 by {
                        assert(prev[a].0 == acc@[a].0@);
                        assert(prev[b].0 == acc@[b].0@);
                    }
                    lemma_bump_at(prev, idx as int);
                }
                acc.set(idx, (nf, c + 1));
                proof {
                    assert(pair_views(acc@) =~= prev.update(idx as int, (nfv, c + 1 as int)));
                }
            } else {
                proof {
                    lemma_has_key_iff(prev, nfv);
                }
                acc.push((nf, 1));
                proof {
                    assert(pair_views(acc@) =~= prev.push((nfv, 1int)));
                }
            }
        }
        j += 1;
    }
    proof {
        assert(views_of(words@).take(words@.len() as int) =~= views_of(words@));
    }
    acc
}

// ----------------------------------------------------------------------------
// Sorting by count, descending, stable
// ----------------------------------------------------------------------------

/// Inserts `e` into a count-descending list, after every entry whose count
/// is at least `e`'s: the stable insertion step.
pub open spec fn insert_desc(e: (Seq<char>, int), es: Seq<(Seq<char>, int)>) -> Seq<
    (Seq<char>, int),
>
    decreases es.len(),
{
    if es.len() == 0 {
        seq![e]
    } else if es[0].1 >= e.1 {
        seq![es[0]] + insert_desc(e, es.drop_first())
    } else {
        seq![e] + es
    }
}

/// The list sorted by count descending by stable insertion: entries with
/// equal counts keep their relative (first-occurrence) order.
pub open spec fn sort_desc(es: Seq<(Seq<char>, int)>) -> Seq<(Seq<char>, int)>
    decreases es.len(),
{
    if es.len() == 0 {
        es
    } else {
        insert_desc(es.last(), sort_desc(es.drop_last()))
    }
}

/// The full word-frequency list of `content`: qualifying normalised words
/// with their counts, count descending, ties in first-occurrence order.
pub open spec fn word_freq_of(content: Seq<char>) -> Seq<(Seq<char>, int)> {
    sort_desc(freq_entries(words_of(content)))
}

proof fn lemma_insert_desc_at(e: (Seq<char>, int), es: Seq<(Seq<char>, int)>, k: int)
    requires
        0 <= k <= es.len(),
        forall|j: int| 0 <= j < k ==> es[j].1 >= e.1,
        k == es.len() || es[k].1 < e.1,
    ensures
        insert_desc(e, es) == es.take(k).push(e) + es.skip(k),
    decreases k,
{
    if k == 0 {
        if es.len() == 0 {
            assert(seq![e] =~= es.take(0).push(e) + es.skip(0));
        } else {
            assert(es[0].1 < e.1);
            assert(seq![e] + es =~= es.take(0).push(e) + es.skip(0));
        }
    } else {
        assert(es[0].1 >= e.1);
        assert forall|j: int| 0 <= j < k - 1 implies es.drop_first()[j].1 >= e.1 by {
            assert(es.drop_first()[j] == es[j + 1]);
        }
        if k - 1 < es.drop_first().len() {
            assert(es.drop_first()[k - 1] == es[k]);
        }
        lemma_insert_desc_at(e, es.drop_first(), k - 1);
        assert(seq![es[0]] + (es.drop_first().take(k - 1).push(e) + es.drop_first().skip(k - 1))
            =~= es.take(k).push(e) + es.skip(k));
    }
}

/// Inserts an entry into a count-descending vector, after the entries whose
/// counts are at least its own.
pub(crate) fn insert_by_count(r: &mut Vec<(Vec<char>, usize)>, e: (Vec<char>, usize))
    ensures
        pair_views(final(r)@) == insert_desc((e.0@, e.1 as int), pair_views(old(r)@)),
{
    let ghost ev = (e.0@, e.1 as int);
    let mut k: usize = 0;
    loop
        invariant
            k <= r@.len(),
            r@ == old(r)@,
            forall|j: int| 0 <= j < k ==> r@[j].1 >= e.1,
        ensures
            k <= r@.len(),
            r@ == old(r)@,
            forall|j: int| 0 <= j < k ==> r@[j].1 >= e.1,
            k == r@.len() || r@[k as int].1 < e.1,
        decreases r@.len() - k,
    {
        if k == r.len() {
            break ;
        }
        if r[k].1 < e.1 {
            break ;
        }
        k += 1;
    }
    proof {
        let pv = pair_views(r@);
        assert forall|j: int| 0 <= j < k implies pv[j].1 >= ev.1 by {
            assert(pv[j].1 == r@[j].1 as int);
        }
        if (k as int) < pv.len() {
            assert(pv[k as int].1 == r@[k as int].1 as int);
        }
        lemma_insert_desc_at(ev, pv, k as int);
    }
    let ghost before = pair_views(r@);
    r.insert(k, e);
    proof {
        assert(pair_views(r@) =~= before.take(k as int).push(ev) + before.skip(k as int));
    }
}

/// Sorts the frequency entries by count descending with a stable insertion
/// sort: ties keep first-occurrence order.
pub(crate) fn sort_by_count(entries: &Vec<(Vec<char>, usize)>) -> (r: Vec<(Vec<char>, usize)>)
    ensures
        pair_views(r@) == sort_desc(pair_views(entries@)),
{
    let mut r: Vec<(Vec<char>, usize)> = Vec::new();
    let mut j: usize = 0;
    proof {
        assert(pair_views(entries@).take(0) =~= Seq::<(Seq<char>, int)>::empty());
        assert(pair_views(r@) =~= sort_desc(pair_views(entries@).take(0)));
    }
    while j < entries.len()
        invariant
            j <= entries@.len(),
            pair_views(r@) == sort_desc(pair_views(entries@).take(j as int)),
        decreases entries@.len() - j,
    {
        let key = clone_chars(&entries[j].0);
        let cnt = entries[j].1;
        proof {
            let pv = pair_views(entries@);
            assert(pv.take(j + 1).drop_last() =~= pv.take(j as int));
            assert(pv.take(j + 1).last() == pv[j as int]);
            assert(pv[j as int] == (entries@[j as int].0@, entries@[j as int].1 as int));
        }
        insert_by_count(&mut r, (key, cnt));
        j += 1;
    }
    proof {
        assert(pair_views(entries@).take(entries@.len() as int) =~= pair_views(entries@));
    }
    r
}

// ----------------------------------------------------------------------------
// Laws of the frequency output
// ----------------------------------------------------------------------------

proof fn lemma_freq_keys_long(toks: Seq<Seq<char>>)
    ensures
        forall|i: int| 0 <= i < freq_entries(toks).len() ==> freq_entries(toks)[i].0.len() > 2,
    decreases toks.len(),
{
    if toks.len() > 0 {
        lemma_freq_keys_long(toks.drop_last());
        let prev = freq_entries(toks.drop_last());
        let w = normal_form(toks.last());
        if w.len() <= 2 {
        } else if has_key(prev, w) {
            lemma_bump_keys(prev, w);
            assert forall|i: int|
                0 <= i < bump_key(prev, w).len() implies bump_key(prev, w)[i].0.len() > 2 by {
                assert(bump_key(prev, w)[i].0 == prev[i].0);
            }
        } else {
            assert forall|i: int|
                0 <= i < prev.push((w, 1int)).len() implies prev.push((w, 1int))[i].0.len()
                > 2 by {
                if i < prev.len() {
                    assert(prev.push((w, 1int))[i] == prev[i]);
                }
            }
        }
    }
}

proof fn lemma_insert_keys_long(e: (Seq<char>, int), es: Seq<(Seq<char>, int)>)
    requires
        e.0.len() > 2,
        forall|i: int| 0 <= i < es.len() ==> es[i].0.len() > 2,
    ensures
        forall|i: int| 0 <= i < insert_desc(e, es).len() ==> insert_desc(e, es)[i].0.len() > 2,
    decreases es.len(),
{
    if es.len() == 0 {
    } else if es[0].1 >= e.1 {
        assert forall|i: int| 0 <= i < es.drop_first().len() implies es.drop_first()[i].0.len()
            > 2 by {
            assert(es.drop_first()[i] == es[i + 1]);
        }
        lemma_insert_keys_long(e, es.drop_first());
        assert forall|i: int|
            0 <= i < insert_desc(e, es).len() implies insert_desc(e, es)[i].0.len() > 2 by {
            if i >= 1 {
                assert(insert_desc(e, es)[i] == insert_desc(e, es.drop_first())[i - 1]);
            }
        }
    } else {
        assert forall|i: int|
            0 <= i < insert_desc(e, es).len() implies insert_desc(e, es)[i].0.len() > 2 by {
            if i >= 1 {
                assert(insert_desc(e, es)[i] == es[i - 1]);
            }
        }
    }
}

proof fn lemma_sort_keys_long(es: Seq<(Seq<char>, int)>)
    requires
        forall|i: int| 0 <= i < es.len() ==> es[i].0.len() > 2,
    ensures
        forall|i: int| 0 <= i < sort_desc(es).len() ==> sort_desc(es)[i].0.len() > 2,
    decreases es.len(),
{
    if es.len() > 0 {
        assert forall|i: int| 0 <= i < es.drop_last().len() implies es.drop_last()[i].0.len()
            > 2 by {
            assert(es.drop_last()[i] == es[i]);
        }
        lemma_sort_keys_long(es.drop_last());
        assert(es.last().0.len() > 2);
        lemma_insert_keys_long(es.last(), sort_desc(es.drop_last()));
    }
}

/// A word whose normal form holds two or fewer characters never appears in
/// the word-frequency output.
pub proof fn lemma_short_words_absent(content: Seq<char>)
    ensures
        forall|i: int|
            0 <= i < word_freq_of(content).len() ==> word_freq_of(content)[i].0.len() > 2,
{
    lemma_freq_keys_long(words_of(content));
    lemma_sort_keys_long(freq_entries(words_of(content)));
}

} // verus!
