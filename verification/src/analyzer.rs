//! The analysis dispatch core: one analyzer per content kind, all over the
//! same line/word substrate, each returning a `FileSummary`.

use crate::freq::{freq_accumulate, pair_views, sort_by_count, word_freq_of};
use crate::numfmt::{dec_chars, dec_str, ratio_chars, ratio_str};
use crate::summary::{FileSummary, FileType};
use crate::textops::{
    clone_chars, extend_chars, join_chars, join_with, line_seqs, split_lines, split_words,
    str_views, total_len, views_of, words_of,
};
use crate::textops::{
    char_prefix_len, count_matches, count_prefix_char, find_first, first_sub, has_sub,
    has_sub_exec, is_match_at, match_count, seqs_eq, skip_chars, sub_at, take_chars, trim_exec,
    trim_of,
};
use crate::unicode::{upper_of, upper_str};
use crate::textops::{
    lemma_char_prefix_bounds, lemma_first_sub, lemma_match_count_le, lemma_total_len_lines,
    lemma_total_len_take, lemma_total_len_words,
};
use crate::unicode::chars_of;
use crate::unicode::string_of;
use vstd::prelude::*;

verus! {

/// The spec-level views of the statistics pairs.
pub open spec fn stat_views(es: Seq<(String, String)>) -> Seq<(Seq<char>, Seq<char>)> {
    es.map_values(|p: (String, String)| (p.0@, p.1@))
}

/// The spec-level views of a rendered frequency list.
pub open spec fn freq_views(es: Seq<(String, usize)>) -> Seq<(Seq<char>, int)> {
    es.map_values(|p: (String, usize)| (p.0@, p.1 as int))
}

/// The "word (count)" rendering of one frequency entry.
pub open spec fn freq_entry_str(e: (Seq<char>, int)) -> Seq<char> {
    e.0 + " ("@ + dec_str(e.1) + ")"@
}

/// The renderings of the first five frequency entries whose word is longer
/// than three characters, in list order.
pub open spec fn top_word_strs(es: Seq<(Seq<char>, int)>) -> Seq<Seq<char>>
    decreases es.len(),
{
    if es.len() == 0 {
        Seq::empty()
    } else {
        let p = top_word_strs(es.drop_last());
        if p.len() < 5 && es.last().0.len() > 3 {
            p.push(freq_entry_str(es.last()))
        } else {
            p
        }
    }
}

/// The insights of the plain-text analysis: one listing of the top words,
/// omitted entirely when no word qualifies.
pub open spec fn text_insights(content: Seq<char>) -> Seq<Seq<char>> {
    let tops = top_word_strs(word_freq_of(content));
    if tops.len() > 0 {
        seq!["Most frequent words: "@ + join_with(tops, ", "@)]
    } else {
        Seq::empty()
    }
}

/// The statistics of the plain-text analysis: mean token length and mean
/// line length, one decimal place, 0.0 on empty denominators.
pub open spec fn text_stats(content: Seq<char>) -> Seq<(Seq<char>, Seq<char>)> {
    seq![
        (
            "avg_word_length"@,
            ratio_str(total_len(words_of(content)), words_of(content).len() as int),
        ),
        ("avg_line_length"@, ratio_str(content.len() as int, line_seqs(content).len() as int)),
    ]
}

// ----------------------------------------------------------------------------
// Per-line aggregation
// ----------------------------------------------------------------------------

/// The number of lines satisfying `p`.
pub open spec fn count_lines(lines: Seq<Seq<char>>, p: spec_fn(Seq<char>) -> bool) -> int
    decreases lines.len(),
{
    if lines.len() == 0 {
        0
    } else {
        count_lines(lines.drop_last(), p) + (if p(lines.last()) {
            1int
        } else {
            0int
        })
    }
}

pub proof fn lemma_count_lines_le(lines: Seq<Seq<char>>, p: spec_fn(Seq<char>) -> bool)
    ensures
        0 <= count_lines(lines, p) <= lines.len(),
    decreases lines.len(),
{
    if lines.len() > 0 {
        lemma_count_lines_le(lines.drop_last(), p);
    }
}

/// The summed number of occurrences of `p` across the lines.
pub open spec fn count_sub_total(lines: Seq<Seq<char>>, p: Seq<char>) -> int
    decreases lines.len(),
{
    if lines.len() == 0 {
        0
    } else {
        count_sub_total(lines.drop_last(), p) + match_count(lines.last(), p)
    }
}

pub proof fn lemma_count_sub_total_le(lines: Seq<Seq<char>>, p: Seq<char>)
    ensures
        0 <= count_sub_total(lines, p) <= total_len(lines),
    decreases lines.len(),
{
    if lines.len() > 0 {
        lemma_count_sub_total_le(lines.drop_last(), p);
        lemma_match_count_le(lines.last(), p);
    }
}

// ----------------------------------------------------------------------------
// The markdown analysis
// ----------------------------------------------------------------------------

/// Whether a line's trimmed form starts with `#`.
pub open spec fn is_header_line(l: Seq<char>) -> bool {
    trim_of(l).len() > 0 && trim_of(l)[0] == '#'
}

/// The header of a header line: the level counts the leading `#` characters
/// of the trimmed line; the text is what follows them, trimmed of
/// surrounding whitespace.
pub open spec fn header_of(l: Seq<char>) -> (int, Seq<char>) {
    let t = trim_of(l);
    let k = char_prefix_len(t, '#');
    (k, trim_of(t.skip(k)))
}

/// The headers of the lines, in encounter order.
pub open spec fn headers_of(lines: Seq<Seq<char>>) -> Seq<(int, Seq<char>)>
    decreases lines.len(),
{
    if lines.len() == 0 {
        Seq::empty()
    } else {
        let p = headers_of(lines.drop_last());
        if is_header_line(lines.last()) {
            p.push(header_of(lines.last()))
        } else {
            p
        }
    }
}

/// Whether a line's trimmed form starts with a code-fence marker.
pub open spec fn is_fence_line(l: Seq<char>) -> bool {
    sub_at(trim_of(l), "```"@, 0)
}

/// The "H<level>: <text>" rendering of one header.
pub open spec fn header_str(h: (int, Seq<char>)) -> Seq<char> {
    "H"@ + dec_str(h.0) + ": "@ + h.1
}

/// The renderings of the first five headers.
pub open spec fn header_strs(hs: Seq<(int, Seq<char>)>) -> Seq<Seq<char>>
    decreases hs.len(),
{
    if hs.len() == 0 {
        Seq::empty()
    } else {
        let p = header_strs(hs.drop_last());
        if p.len() < 5 {
            p.push(header_str(hs.last()))
        } else {
            p
        }
    }
}

/// The insights of the markdown analysis: the document structure when any
/// header exists.
pub open spec fn md_insights(lines: Seq<Seq<char>>) -> Seq<Seq<char>> {
    let hs = headers_of(lines);
    if hs.len() > 0 {
        seq!["Document structure: "@ + join_with(header_strs(hs), ", "@)]
    } else {
        Seq::empty()
    }
}

/// The statistics of the markdown analysis. Image occurrences also count as
/// links when the image syntax closes link-style: the two counters
/// double-count by design.
pub open spec fn md_stats(lines: Seq<Seq<char>>) -> Seq<(Seq<char>, Seq<char>)> {
    seq![
        ("headers"@, dec_str(headers_of(lines).len() as int)),
        ("links"@, dec_str(count_sub_total(lines, "]("@))),
        ("images"@, dec_str(count_sub_total(lines, "!["@))),
        ("code_blocks"@, dec_str(count_lines(lines, |l: Seq<char>| is_fence_line(l)) / 2)),
    ]
}

// ----------------------------------------------------------------------------
// The log analysis
// ----------------------------------------------------------------------------

/// The number of lines whose uppercased form contains `tok` (substring, not
/// whole-word, match; a line can raise several token counters).
pub open spec fn level_count(lines: Seq<Seq<char>>, tok: Seq<char>) -> int {
    count_lines(lines, |l: Seq<char>| has_sub(upper_of(l), tok))
}

/// Whether a line reports an error: its uppercased form contains ERROR,
/// EXCEPTION or FAIL.
pub open spec fn is_error_line(l: Seq<char>) -> bool {
    has_sub(upper_of(l), "ERROR"@) || has_sub(upper_of(l), "EXCEPTION"@) || has_sub(
        upper_of(l),
        "FAIL"@,
    )
}

/// The error lines, verbatim, in encounter order.
pub open spec fn error_lines(lines: Seq<Seq<char>>) -> Seq<Seq<char>>
    decreases lines.len(),
{
    if lines.len() == 0 {
        Seq::empty()
    } else {
        let p = error_lines(lines.drop_last());
        if is_error_line(lines.last()) {
            p.push(lines.last())
        } else {
            p
        }
    }
}

/// The timestamp candidate of a line, if any: a line longer than ten
/// characters containing one of `:`, `-`, `/`, whose first
/// whitespace-delimited token itself contains `:` or `-`, contributes that
/// token (a tolerant heuristic, not a timestamp parser).
pub open spec fn ts_of_line(l: Seq<char>) -> Option<Seq<char>> {
    if l.len() > 10 && (has_sub(l, ":"@) || has_sub(l, "-"@) || has_sub(l, "/"@)) && words_of(
        l,
    ).len() > 0 && (has_sub(words_of(l)[0], ":"@) || has_sub(words_of(l)[0], "-"@)) {
        Some(words_of(l)[0])
    } else {
        None
    }
}

/// The timestamp candidates of the lines, in encounter order.
pub open spec fn timestamps_of(lines: Seq<Seq<char>>) -> Seq<Seq<char>>
    decreases lines.len(),
{
    if lines.len() == 0 {
        Seq::empty()
    } else {
        let p = timestamps_of(lines.drop_last());
        match ts_of_line(lines.last()) {
            Some(t) => p.push(t),
            None => p,
        }
    }
}

/// The first occurrences among the entries, in order; its length is the
/// number of distinct entries.
pub open spec fn dedup(ts: Seq<Seq<char>>) -> Seq<Seq<char>>
    decreases ts.len(),
{
    if ts.len() == 0 {
        Seq::empty()
    } else {
        let p = dedup(ts.drop_last());
        if p.contains(ts.last()) {
            p
        } else {
            p.push(ts.last())
        }
    }
}

/// The "TOKEN: count" rendering of one severity counter, present only when
/// the counter is positive.
pub open spec fn level_part(lines: Seq<Seq<char>>, tok: Seq<char>) -> Seq<Seq<char>> {
    if level_count(lines, tok) > 0 {
        seq![tok + ": "@ + dec_str(level_count(lines, tok))]
    } else {
        Seq::empty()
    }
}

/// The severity counter renderings, in the fixed token order ERROR, WARN,
/// INFO, DEBUG, TRACE: a deterministic rendering of the counters.
pub open spec fn level_parts(lines: Seq<Seq<char>>) -> Seq<Seq<char>> {
    level_part(lines, "ERROR"@) + level_part(lines, "WARN"@) + level_part(lines, "INFO"@)
        + level_part(lines, "DEBUG"@) + level_part(lines, "TRACE"@)
}

/// An error line as displayed: at most 100 characters, with an ellipsis
/// marker when longer.
pub open spec fn truncated(l: Seq<char>) -> Seq<char> {
    if l.len() > 100 {
        l.take(100) + "..."@
    } else {
        l
    }
}

/// The "  <n>: <line>" rendering of one displayed error line.
pub open spec fn error_item_str(n: int, l: Seq<char>) -> Seq<char> {
    "  "@ + dec_str(n) + ": "@ + truncated(l)
}

/// The severity insight: present when some token occurred.
pub open spec fn log_level_insight(lines: Seq<Seq<char>>) -> Seq<Seq<char>> {
    if level_parts(lines).len() > 0 {
        seq!["Log levels: "@ + join_with(level_parts(lines), ", "@)]
    } else {
        Seq::empty()
    }
}

/// The naive time-range insight: first and last candidate by line order.
pub open spec fn log_time_insight(lines: Seq<Seq<char>>) -> Seq<Seq<char>> {
    let ts = timestamps_of(lines);
    if ts.len() > 1 {
        seq!["Time range: "@ + ts[0] + " to "@ + ts.last()]
    } else {
        Seq::empty()
    }
}

/// The error insights: the total, then up to three error lines, numbered
/// from one, each truncated to 100 characters.
pub open spec fn log_error_insights(lines: Seq<Seq<char>>) -> Seq<Seq<char>> {
    let errs = error_lines(lines);
    if errs.len() > 0 {
        seq!["Sample errors found: "@ + dec_str(errs.len() as int) + " total"@] + Seq::new(
            if errs.len() > 3 {
                3nat
            } else {
                errs.len()
            },
            |i: int| error_item_str(i + 1, errs[i]),
        )
    } else {
        Seq::empty()
    }
}

/// The insights of the log analysis, in order: severities, time range,
/// errors.
pub open spec fn log_insights(lines: Seq<Seq<char>>) -> Seq<Seq<char>> {
    log_level_insight(lines) + log_time_insight(lines) + log_error_insights(lines)
}

/// The statistics of the log analysis.
pub open spec fn log_stats(lines: Seq<Seq<char>>) -> Seq<(Seq<char>, Seq<char>)> {
    seq![("unique_timestamps"@, dec_str(dedup(timestamps_of(lines)).len() as int))]
}

// ----------------------------------------------------------------------------
// The source-code analysis
// ----------------------------------------------------------------------------

/// The function name a line declares, if any: on a line whose trimmed form
/// begins with "fn " or contains " fn ", the text between the first "fn "
/// and the next '(', trimmed; a line without a following '(' declares none.
pub open spec fn fn_name_of(l: Seq<char>) -> Option<Seq<char>> {
    let t = trim_of(l);
    if sub_at(t, "fn "@, 0) || has_sub(t, " fn "@) {
        let i = first_sub(t, "fn "@);
        if i >= 0 {
            let rest = t.skip(i + "fn "@.len());
            let j = first_sub(rest, "("@);
            if j >= 0 {
                Some(trim_of(rest.take(j)))
            } else {
                None
            }
        } else {
            None
        }
    } else {
        None
    }
}

/// The function names declared by the lines, in encounter order.
pub open spec fn fn_names_of(lines: Seq<Seq<char>>) -> Seq<Seq<char>>
    decreases lines.len(),
{
    if lines.len() == 0 {
        Seq::empty()
    } else {
        let p = fn_names_of(lines.drop_last());
        match fn_name_of(lines.last()) {
            Some(n) => p.push(n),
            None => p,
        }
    }
}

/// The name a declaration line introduces: the second whitespace-delimited
/// token of a trimmed line starting with `kw`.
pub open spec fn second_token_of(l: Seq<char>, kw: Seq<char>) -> Option<Seq<char>> {
    let t = trim_of(l);
    if sub_at(t, kw, 0) && words_of(t).len() >= 2 {
        Some(words_of(t)[1])
    } else {
        None
    }
}

/// The struct names declared by the lines, in encounter order.
pub open spec fn struct_names_of(lines: Seq<Seq<char>>) -> Seq<Seq<char>>
    decreases lines.len(),
{
    if lines.len() == 0 {
        Seq::empty()
    } else {
        let p = struct_names_of(lines.drop_last());
        match second_token_of(lines.last(), "struct "@) {
            Some(n) => p.push(n),
            None => p,
        }
    }
}

/// The enum names declared by the lines, in encounter order.
pub open spec fn enum_names_of(lines: Seq<Seq<char>>) -> Seq<Seq<char>>
    decreases lines.len(),
{
    if lines.len() == 0 {
        Seq::empty()
    } else {
        let p = enum_names_of(lines.drop_last());
        match second_token_of(lines.last(), "enum "@) {
            Some(n) => p.push(n),
            None => p,
        }
    }
}

/// Whether a line's trimmed form starts with "use ".
pub open spec fn is_import_line(l: Seq<char>) -> bool {
    sub_at(trim_of(l), "use "@, 0)
}

/// Whether a line's trimmed form starts a comment (every physical line is
/// classified on its own; block comments are not tracked across lines).
pub open spec fn is_comment_line(l: Seq<char>) -> bool {
    sub_at(trim_of(l), "//"@, 0) || sub_at(trim_of(l), "/*"@, 0)
}

/// Whether a line's uppercased trimmed form contains TODO or FIXME.
pub open spec fn is_todo_line(l: Seq<char>) -> bool {
    has_sub(upper_of(trim_of(l)), "TODO"@) || has_sub(upper_of(trim_of(l)), "FIXME"@)
}

pub open spec fn import_count(lines: Seq<Seq<char>>) -> int {
    count_lines(lines, |l: Seq<char>| is_import_line(l))
}

pub open spec fn comment_count(lines: Seq<Seq<char>>) -> int {
    count_lines(lines, |l: Seq<char>| is_comment_line(l))
}

pub open spec fn todo_count(lines: Seq<Seq<char>>) -> int {
    count_lines(lines, |l: Seq<char>| is_todo_line(l))
}

/// At most the first five names.
pub open spec fn first_five(s: Seq<Seq<char>>) -> Seq<Seq<char>> {
    if s.len() > 5 {
        s.take(5)
    } else {
        s
    }
}

/// The insights of the source-code analysis, in order: functions, structs,
/// enums, TODO/FIXME count, each omitted when empty.
pub open spec fn rust_insights(lines: Seq<Seq<char>>) -> Seq<Seq<char>> {
    let fns = fn_names_of(lines);
    let sts = struct_names_of(lines);
    let ens = enum_names_of(lines);
    (if fns.len() > 0 {
        seq![
            "Functions ("@ + dec_str(fns.len() as int) + "): "@ + join_with(
                first_five(fns),
                ", "@,
            ),
        ]
    } else {
        Seq::empty()
    }) + (if sts.len() > 0 {
        seq!["Structs: "@ + join_with(sts, ", "@)]
    } else {
        Seq::empty()
    }) + (if ens.len() > 0 {
        seq!["Enums: "@ + join_with(ens, ", "@)]
    } else {
        Seq::empty()
    }) + (if todo_count(lines) > 0 {
        seq!["TODOs/FIXMEs found: "@ + dec_str(todo_count(lines))]
    } else {
        Seq::empty()
    })
}

/// The statistics of the source-code analysis; the comment ratio is
/// comments over lines as a percentage to one decimal place, "0.0%" on
/// empty content.
pub open spec fn rust_stats(lines: Seq<Seq<char>>) -> Seq<(Seq<char>, Seq<char>)> {
    seq![
        ("functions"@, dec_str(fn_names_of(lines).len() as int)),
        ("structs"@, dec_str(struct_names_of(lines).len() as int)),
        ("enums"@, dec_str(enum_names_of(lines).len() as int)),
        ("imports"@, dec_str(import_count(lines))),
        ("comment_ratio"@, ratio_str(comment_count(lines) * 100, lines.len() as int) + "%"@),
    ]
}

/// The spec-level views of gathered headers.
pub open spec fn header_views(hs: Seq<(usize, Vec<char>)>) -> Seq<(int, Seq<char>)> {
    hs.map_values(|h: (usize, Vec<char>)| (h.0 as int, h.1@))
}

/// A single-pass analyzer over one file's content, held beside the line
/// split it derives once.
pub struct TextAnalyzer {
    pub content: String,
    pub lines: Vec<String>,
}

impl TextAnalyzer {
    /// The lines field mirrors the line split of the content.
    pub open spec fn wf(&self) -> bool {
        str_views(self.lines@) == line_seqs(self.content@)
    }

    /// Builds an analyzer over `content`, splitting it into lines once.
    pub fn new(content: String) -> (r: TextAnalyzer)
        ensures
            r.wf(),
            r.content@ == content@,
    {
        let cv = chars_of(content.as_str());
        let parts = split_lines(&cv);
        let mut lines: Vec<String> = Vec::new();
        let mut i: usize = 0;
        proof {
            assert(str_views(lines@) =~= views_of(parts@).take(0));
        }
        while i < parts.len()
            invariant
                i <= parts@.len(),
                str_views(lines@) == views_of(parts@).take(i as int),
            decreases parts@.len() - i,
        {
            let s = string_of(&parts[i]);
            proof {
                let pv = views_of(parts@);
                assert(pv[i as int] == parts@[i as int]@);
                assert(str_views(lines@.push(s)) =~= str_views(lines@).push(s@));
                assert(pv.take(i + 1) =~= pv.take(i as int).push(pv[i as int]));
            }
            lines.push(s);
            i += 1;
        }
        proof {
            assert(views_of(parts@).take(parts@.len() as int) =~= views_of(parts@));
        }
        TextAnalyzer { content, lines }
    }

    /// The universal counts: lines, maximal whitespace-delimited words, and
    /// Unicode scalar values of the raw content. These are the same numbers
    /// whichever analyzer runs afterwards.
    pub fn basic_stats(&self) -> (r: (usize, usize, usize))
        requires
            self.wf(),
        ensures
            r.0 == line_seqs(self.content@).len(),
            r.1 == words_of(self.content@).len(),
            r.2 == self.content@.len(),
    {
        let line_count = self.lines.len();
        let cv = chars_of(self.content.as_str());
        let words = split_words(&cv);
        let word_count = words.len();
        let char_count = cv.len();
        proof {
            assert(str_views(self.lines@).len() == self.lines@.len());
            assert(views_of(words@).len() == words@.len());
        }
        (line_count, word_count, char_count)
    }

    /// The word-frequency list of the content: counts descending, ties in
    /// first-occurrence order.
    pub fn get_word_frequency(&self) -> (r: Vec<(String, usize)>)
        ensures
            freq_views(r@) == word_freq_of(self.content@),
    {
        let cv = chars_of(self.content.as_str());
        let words = split_words(&cv);
        let entries = freq_accumulate(&words);
        let sorted = sort_by_count(&entries);
        let mut r: Vec<(String, usize)> = Vec::new();
        let mut i: usize = 0;
        proof {
            assert(freq_views(r@) =~= pair_views(sorted@).take(0));
        }
        while i < sorted.len()
            invariant
                i <= sorted@.len(),
                freq_views(r@) == pair_views(sorted@).take(i as int),
            decreases sorted@.len() - i,
        {
            let pair = &sorted[i];
            let key = string_of(&pair.0);
            let e = (key, pair.1);
            proof {
                let pv = pair_views(sorted@);
                assert(pv[i as int] == (sorted@[i as int].0@, sorted@[i as int].1 as int));
                assert(freq_views(r@.push(e)) =~= freq_views(r@).push((e.0@, e.1 as int)));
                assert(pv.take(i + 1) =~= pv.take(i as int).push(pv[i as int]));
            }
            r.push(e);
            i += 1;
        }
        proof {
            assert(pair_views(sorted@).take(sorted@.len() as int) =~= pair_views(sorted@));
        }
        r
    }

    /// Analyzes the content as markdown: universal counts, the document
    /// structure insight, and counts of headers, links, images and fenced
    /// code blocks (pairs of fence-marker lines).
    pub fn analyze_markdown(&self) -> (r: FileSummary)
        requires
            self.wf(),
        ensures
            r.file_type == FileType::Markdown,
            r.line_count == line_seqs(self.content@).len(),
            r.word_count == words_of(self.content@).len(),
            r.char_count == self.content@.len(),
            str_views(r.key_insights@) == md_insights(line_seqs(self.content@)),
            stat_views(r.statistics@) == md_stats(line_seqs(self.content@)),
    {
        let counts = self.basic_stats();
        let line_count = counts.0;
        let word_count = counts.1;
        let char_count = counts.2;
        let ghost lv = line_seqs(self.content@);

        let pat_link = chars_of("](");
        let pat_img = chars_of("![");
        let pat_fence = chars_of("```");
        let mut headers: Vec<(usize, Vec<char>)> = Vec::new();
        let mut links: usize = 0;
        let mut images: usize = 0;
        let mut fences: usize = 0;
        let mut i: usize = 0;
        proof {
            reveal_strlit("](");
            reveal_strlit("![");
            assert(lv.take(0) =~= Seq::<Seq<char>>::empty());
            assert(header_views(headers@) =~= headers_of(lv.take(0)));
        }
        while i < self.lines.len()
            invariant
                i <= self.lines@.len(),
                str_views(self.lines@) == lv,
                lv == line_seqs(self.content@),
                self.content@.len() <= usize::MAX,
                char_count == self.content@.len(),
                pat_link@ == "]("@,
                pat_img@ == "!["@,
                pat_fence@ == "```"@,
                pat_link@.len() >= 1,
                pat_img@.len() >= 1,
                header_views(headers@) == headers_of(lv.take(i as int)),
                links as int == count_sub_total(lv.take(i as int), "]("@),
                images as int == count_sub_total(lv.take(i as int), "!["@),
                fences as int == count_lines(
                    lv.take(i as int),
                    |l: Seq<char>| is_fence_line(l),
                ),
            decreases self.lines@.len() - i,
        {
            let line = &self.lines[i];
            let lc = chars_of(line.as_str());
            proof {
                assert(lv[i as int] == self.lines@[i as int]@);
                assert(lc@ == lv[i as int]);
                assert(lv.take(i + 1).drop_last() =~= lv.take(i as int));
                assert(lv.take(i + 1).last() == lv[i as int]);
                lemma_total_len_lines(self.content@);
                lemma_total_len_take(lv, i + 1);
                lemma_count_sub_total_le(lv.take(i + 1), "]("@);
                lemma_count_sub_total_le(lv.take(i + 1), "!["@);
                lemma_count_lines_le(lv.take(i + 1), |l: Seq<char>| is_fence_line(l));
            }
            let t = trim_exec(&lc);
            if t.len() > 0 && t[0] == '#' {
                let k = count_prefix_char(&t, '#');
                proof {
                    lemma_char_prefix_bounds(t@, '#');
                }
                let rest = skip_chars(&t, k);
                let text = trim_exec(&rest);
                proof {
                    assert(is_header_line(lv[i as int]));
                    assert(header_of(lv[i as int]) == (k as int, text@));
                    assert(header_views(headers@.push((k, text))) =~= header_views(
                        headers@,
                    ).push((k as int, text@)));
                }
                headers.push((k, text));
            } else {
                proof {
                    assert(!is_header_line(lv[i as int]));
                }
            }
            links = links + count_matches(&lc, &pat_link);
            images = images + count_matches(&lc, &pat_img);
            if t.len() >= pat_fence.len() && is_match_at(&t, &pat_fence, 0) {
                proof {
                    assert(is_fence_line(lv[i as int]));
                }
                fences = fences + 1;
            } else {
                proof {
                    assert(!is_fence_line(lv[i as int]));
                }
            }
            i += 1;
        }
        proof {
            assert(lv.take(self.lines@.len() as int) =~= lv);
        }

        let mut insights: Vec<String> = Vec::new();
        if headers.len() > 0 {
            let mut parts: Vec<Vec<char>> = Vec::new();
            let mut j: usize = 0;
            proof {
                assert(header_views(headers@).take(0) =~= Seq::<(int, Seq<char>)>::empty());
                assert(views_of(parts@) =~= header_strs(header_views(headers@).take(0)));
            }
            while j < headers.len()
                invariant
                    j <= headers@.len(),
                    views_of(parts@) == header_strs(header_views(headers@).take(j as int)),
                decreases headers@.len() - j,
            {
                proof {
                    let hv = header_views(headers@);
                    assert(hv.take(j + 1).drop_last() =~= hv.take(j as int));
                    assert(hv.take(j + 1).last() == hv[j as int]);
                    assert(hv[j as int] == (headers@[j as int].0 as int, headers@[j as int].1@));
                }
                if parts.len() < 5 {
                    let mut hs = chars_of("H");
                    let d = dec_chars(headers[j].0 as u128);
                    extend_chars(&mut hs, &d);
                    extend_chars(&mut hs, &chars_of(": "));
                    extend_chars(&mut hs, &headers[j].1);
                    proof {
                        assert(hs@ =~= header_str(header_views(headers@)[j as int]));
                        assert(views_of(parts@.push(hs)) =~= views_of(parts@).push(hs@));
                    }
                    parts.push(hs);
                }
                j += 1;
            }
            proof {
                assert(header_views(headers@).take(headers@.len() as int) =~= header_views(
                    headers@,
                ));
            }
            let mut ins = chars_of("Document structure: ");
            let joined = join_chars(&parts, &chars_of(", "));
            extend_chars(&mut ins, &joined);
            let s = string_of(&ins);
            proof {
                assert(str_views(insights@.push(s)) =~= str_views(insights@).push(s@));
            }
            insights.push(s);
        }
        proof {
            assert(headers_of(lv).len() == header_views(headers@).len());
            assert(str_views(insights@) =~= md_insights(lv));
        }

        let mut stats: Vec<(String, String)> = Vec::new();
        let hc = dec_chars(headers.len() as u128);
        stats.push((String::from_str("headers"), string_of(&hc)));
        let lc2 = dec_chars(links as u128);
        stats.push((String::from_str("links"), string_of(&lc2)));
        let ic = dec_chars(images as u128);
        stats.push((String::from_str("images"), string_of(&ic)));
        let cb = dec_chars((fences / 2) as u128);
        stats.push((String::from_str("code_blocks"), string_of(&cb)));
        proof {
            assert((fences / 2) as int == count_lines(lv, |l: Seq<char>| is_fence_line(l)) / 2);
            assert(stat_views(stats@) =~= md_stats(lv));
        }

        FileSummary {
            file_type: FileType::Markdown,
            line_count,
            word_count,
            char_count,
            key_insights: insights,
            statistics: stats,
        }
    }

    /// Analyzes the content as a log: universal counts, severity counters,
    /// a naive time range, sampled error lines, and the distinct
    /// timestamp-candidate count.
    #[verifier::rlimit(100)]
    #[verifier::spinoff_prover]
    pub fn analyze_log(&self) -> (r: FileSummary)
        requires
            self.wf(),
        ensures
            r.file_type == FileType::Log,
            r.line_count == line_seqs(self.content@).len(),
            r.word_count == words_of(self.content@).len(),
            r.char_count == self.content@.len(),
            str_views(r.key_insights@) == log_insights(line_seqs(self.content@)),
            stat_views(r.statistics@) == log_stats(line_seqs(self.content@)),
    {
        let counts = self.basic_stats();
        let line_count = counts.0;
        let word_count = counts.1;
        let char_count = counts.2;
        let ghost lv = line_seqs(self.content@);

        let p_error = chars_of("ERROR");
        let p_warn = chars_of("WARN");
        let p_info = chars_of("INFO");
        let p_debug = chars_of("DEBUG");
        let p_trace = chars_of("TRACE");
        let p_exc = chars_of("EXCEPTION");
        let p_fail = chars_of("FAIL");
        let p_colon = chars_of(":");
        let p_dash = chars_of("-");
        let p_slash = chars_of("/");
        proof {
            reveal_strlit("ERROR");
            reveal_strlit("WARN");
            reveal_strlit("INFO");
            reveal_strlit("DEBUG");
            reveal_strlit("TRACE");
            reveal_strlit("EXCEPTION");
            reveal_strlit("FAIL");
            reveal_strlit(":");
            reveal_strlit("-");
            reveal_strlit("/");
        }

        let mut c_error: usize = 0;
        let mut c_warn: usize = 0;
        let mut c_info: usize = 0;
        let mut c_debug: usize = 0;
        let mut c_trace: usize = 0;
        let mut errs: Vec<String> = Vec::new();
        let mut tss: Vec<Vec<char>> = Vec::new();
        let mut i: usize = 0;
        proof {
            assert(lv.take(0) =~= Seq::<Seq<char>>::empty());
            assert(str_views(errs@) =~= error_lines(lv.take(0)));
            assert(views_of(tss@) =~= timestamps_of(lv.take(0)));
        }
        while i < self.lines.len()
            invariant
                i <= self.lines@.len(),
                str_views(self.lines@) == lv,
                lv == line_seqs(self.content@),
                p_error@ == "ERROR"@ && p_error@.len() >= 1,
                p_warn@ == "WARN"@ && p_warn@.len() >= 1,
                p_info@ == "INFO"@ && p_info@.len() >= 1,
                p_debug@ == "DEBUG"@ && p_debug@.len() >= 1,
                p_trace@ == "TRACE"@ && p_trace@.len() >= 1,
                p_exc@ == "EXCEPTION"@ && p_exc@.len() >= 1,
                p_fail@ == "FAIL"@ && p_fail@.len() >= 1,
                p_colon@ == ":"@ && p_colon@.len() >= 1,
                p_dash@ == "-"@ && p_dash@.len() >= 1,
                p_slash@ == "/"@ && p_slash@.len() >= 1,
                c_error as int == level_count(lv.take(i as int), "ERROR"@),
                c_warn as int == level_count(lv.take(i as int), "WARN"@),
                c_info as int == level_count(lv.take(i as int), "INFO"@),
                c_debug as int == level_count(lv.take(i as int), "DEBUG"@),
                c_trace as int == level_count(lv.take(i as int), "TRACE"@),
                str_views(errs@) == error_lines(lv.take(i as int)),
                views_of(tss@) == timestamps_of(lv.take(i as int)),
            decreases self.lines@.len() - i,
        {
            let line = &self.lines[i];
            let lc = chars_of(line.as_str());
            let ups = upper_str(line.as_str());
            let up = chars_of(ups.as_str());
            proof {
                assert(lv[i as int] == self.lines@[i as int]@);
                assert(lc@ == lv[i as int]);
                assert(up@ == upper_of(lv[i as int]));
                assert(lv.take(i + 1).drop_last() =~= lv.take(i as int));
                assert(lv.take(i + 1).last() == lv[i as int]);
                lemma_count_lines_le(
                    lv.take(i as int),
                    |l: Seq<char>| has_sub(upper_of(l), "ERROR"@),
                );
                lemma_count_lines_le(
                    lv.take(i as int),
                    |l: Seq<char>| has_sub(upper_of(l), "WARN"@),
                );
                lemma_count_lines_le(
                    lv.take(i as int),
                    |l: Seq<char>| has_sub(upper_of(l), "INFO"@),
                );
                lemma_count_lines_le(
                    lv.take(i as int),
                    |l: Seq<char>| has_sub(upper_of(l), "DEBUG"@),
                );
                lemma_count_lines_le(
                    lv.take(i as int),
                    |l: Seq<char>| has_sub(upper_of(l), "TRACE"@),
                );
            }
            let he = has_sub_exec(&up, &p_error);
            if he {
                c_error = c_error + 1;
            }
            if has_sub_exec(&up, &p_warn) {
                c_warn = c_warn + 1;
            }
            if has_sub_exec(&up, &p_info) {
                c_info = c_info + 1;
            }
            if has_sub_exec(&up, &p_debug) {
                c_debug = c_debug + 1;
            }
            if has_sub_exec(&up, &p_trace) {
                c_trace = c_trace + 1;
            }
            if he || has_sub_exec(&up, &p_exc) || has_sub_exec(&up, &p_fail) {
                let lcopy = line.clone();
                proof {
                    assert(is_error_line(lv[i as int]));
                    assert(str_views(errs@.push(lcopy)) =~= str_views(errs@).push(lcopy@));
                }
                errs.push(lcopy);
            } else {
                proof {
                    assert(!is_error_line(lv[i as int]));
                }
            }
            if lc.len() > 10 && (has_sub_exec(&lc, &p_colon) || has_sub_exec(&lc, &p_dash)
                || has_sub_exec(&lc, &p_slash)) {
                let parts = split_words(&lc);
                if parts.len() > 0 && (has_sub_exec(&parts[0], &p_colon) || has_sub_exec(
                    &parts[0],
                    &p_dash,
                )) {
                    let t0 = clone_chars(&parts[0]);
                    proof {
                        assert(views_of(parts@)[0] == parts@[0]@);
                        assert(ts_of_line(lv[i as int]) == Some(t0@));
                        assert(views_of(tss@.push(t0)) =~= views_of(tss@).push(t0@));
                    }
                    tss.push(t0);
                } else {
                    proof {
                        if views_of(parts@).len() > 0 {
                            assert(views_of(parts@)[0] == parts@[0]@);
                        }
                        assert(ts_of_line(lv[i as int]) is None);
                    }
                }
            } else {
                proof {
                    assert(ts_of_line(lv[i as int]) is None);
                }
            }
            i += 1;
        }
        proof {
            assert(lv.take(self.lines@.len() as int) =~= lv);
        }

        let mut insights: Vec<String> = Vec::new();

        let ghost lp1 = level_part(lv, "ERROR"@);
        let ghost lp2 = lp1 + level_part(lv, "WARN"@);
        let ghost lp3 = lp2 + level_part(lv, "INFO"@);
        let ghost lp4 = lp3 + level_part(lv, "DEBUG"@);
        let ghost lp5 = lp4 + level_part(lv, "TRACE"@);
        let mut parts: Vec<Vec<char>> = Vec::new();
        if c_error > 0 {
            let mut p = clone_chars(&p_error);
            extend_chars(&mut p, &chars_of(": "));
            let d = dec_chars(c_error as u128);
            extend_chars(&mut p, &d);
            parts.push(p);
        }
        proof {
            assert(views_of(parts@) =~= lp1);
        }
        if c_warn > 0 {
            let mut p = clone_chars(&p_warn);
            extend_chars(&mut p, &chars_of(": "));
            let d = dec_chars(c_warn as u128);
            extend_chars(&mut p, &d);
            parts.push(p);
        }
        proof {
            assert(views_of(parts@) =~= lp2);
        }
        if c_info > 0 {
            let mut p = clone_chars(&p_info);
            extend_chars(&mut p, &chars_of(": "));
            let d = dec_chars(c_info as u128);
            extend_chars(&mut p, &d);
            parts.push(p);
        }
        proof {
            assert(views_of(parts@) =~= lp3);
        }
        if c_debug > 0 {
            let mut p = clone_chars(&p_debug);
            extend_chars(&mut p, &chars_of(": "));
            let d = dec_chars(c_debug as u128);
            extend_chars(&mut p, &d);
            parts.push(p);
        }
        proof {
            assert(views_of(parts@) =~= lp4);
        }
        if c_trace > 0 {
            let mut p = clone_chars(&p_trace);
            extend_chars(&mut p, &chars_of(": "));
            let d = dec_chars(c_trace as u128);
            extend_chars(&mut p, &d);
            parts.push(p);
        }
        proof {
            assert(views_of(parts@) =~= lp5);
            assert(views_of(parts@) == level_parts(lv));
        }
        if parts.len() > 0 {
            let mut ins = chars_of("Log levels: ");
            let joined = join_chars(&parts, &chars_of(", "));
            extend_chars(&mut ins, &joined);
            let s = string_of(&ins);
            proof {
                assert(str_views(insights@.push(s)) =~= str_views(insights@).push(s@));
            }
            insights.push(s);
        }
        proof {
            assert(str_views(insights@) =~= log_level_insight(lv));
        }

        if tss.len() > 1 {
            let mut ins = chars_of("Time range: ");
            extend_chars(&mut ins, &tss[0]);
            extend_chars(&mut ins, &chars_of(" to "));
            extend_chars(&mut ins, &tss[tss.len() - 1]);
            let s = string_of(&ins);
            proof {
                let ts = timestamps_of(lv);
                assert(views_of(tss@)[0] == tss@[0]@);
                assert(views_of(tss@)[tss@.len() - 1] == tss@[tss@.len() - 1]@);
                assert(s@ =~= "Time range: "@ + ts[0] + " to "@ + ts.last());
                assert(str_views(insights@.push(s)) =~= str_views(insights@).push(s@));
            }
            insights.push(s);
        }
        proof {
            assert(str_views(insights@) =~= log_level_insight(lv) + log_time_insight(lv));
        }

        let ghost ev = error_lines(lv);
        if errs.len() > 0 {
            let mut hdr = chars_of("Sample errors found: ");
            let d = dec_chars(errs.len() as u128);
            extend_chars(&mut hdr, &d);
            extend_chars(&mut hdr, &chars_of(" total"));
            let s = string_of(&hdr);
            proof {
                assert(s@ =~= "Sample errors found: "@ + dec_str(ev.len() as int) + " total"@);
                assert(str_views(insights@.push(s)) =~= str_views(insights@).push(s@));
            }
            insights.push(s);
            let ghost base = log_level_insight(lv) + log_time_insight(lv) + seq![
                "Sample errors found: "@ + dec_str(ev.len() as int) + " total"@,
            ];
            proof {
                assert(str_views(insights@) =~= base + Seq::new(
                    0nat,
                    |m: int| error_item_str(m + 1, ev[m]),
                ));
            }
            let cap: usize = if errs.len() > 3 {
                3
            } else {
                errs.len()
            };
            let mut k: usize = 0;
            while k < cap
                invariant
                    k <= cap,
                    cap <= errs@.len(),
                    cap as int == (if ev.len() > 3 {
                        3int
                    } else {
                        ev.len() as int
                    }),
                    str_views(errs@) == ev,
                    base == log_level_insight(lv) + log_time_insight(lv) + seq![
                        "Sample errors found: "@ + dec_str(ev.len() as int) + " total"@,
                    ],
                    str_views(insights@) == base + Seq::new(
                        k as nat,
                        |m: int| error_item_str(m + 1, ev[m]),
                    ),
                decreases cap - k,
            {
                let ec = chars_of(errs[k].as_str());
                let mut item = chars_of("  ");
                let d2 = dec_chars((k + 1) as u128);
                extend_chars(&mut item, &d2);
                extend_chars(&mut item, &chars_of(": "));
                if ec.len() > 100 {
                    let tc = take_chars(&ec, 100);
                    extend_chars(&mut item, &tc);
                    extend_chars(&mut item, &chars_of("..."));
                } else {
                    extend_chars(&mut item, &ec);
                }
                let s2 = string_of(&item);
                proof {
                    assert(ec@ == ev[k as int]);
                    assert(s2@ =~= error_item_str(k + 1, ev[k as int]));
                    assert(str_views(insights@.push(s2)) =~= str_views(insights@).push(s2@));
                    assert(Seq::new((k + 1) as nat, |m: int| error_item_str(m + 1, ev[m]))
                        =~= Seq::new(k as nat, |m: int| error_item_str(m + 1, ev[m])).push(
                        error_item_str(k + 1, ev[k as int]),
                    ));
                }
                insights.push(s2);
                k += 1;
            }
            proof {
                assert(Seq::new(
                    if ev.len() > 3 {
                        3nat
                    } else {
                        ev.len()
                    },
                    |m: int| error_item_str(m + 1, ev[m]),
                ) =~= Seq::new(cap as nat, |m: int| error_item_str(m + 1, ev[m])));
            }
        }
        proof {
            assert(str_views(insights@) =~= log_insights(lv));
        }

        let mut seen: Vec<Vec<char>> = Vec::new();
        let mut k2: usize = 0;
        proof {
            assert(views_of(tss@).take(0) =~= Seq::<Seq<char>>::empty());
            assert(views_of(seen@) =~= dedup(views_of(tss@).take(0)));
        }
        while k2 < tss.len()
            invariant
                k2 <= tss@.len(),
                views_of(seen@) == dedup(views_of(tss@).take(k2 as int)),
            decreases tss@.len() - k2,
        {
            proof {
                let tv = views_of(tss@);
                assert(tv.take(k2 + 1).drop_last() =~= tv.take(k2 as int));
                assert(tv.take(k2 + 1).last() == tv[k2 as int]);
                assert(tv[k2 as int] == tss@[k2 as int]@);
            }
            let mut found = false;
            let mut j2: usize = 0;
            loop
                invariant
                    j2 <= seen@.len(),
                    k2 < tss@.len(),
                    !found ==> forall|m: int| 0 <= m < j2 ==> seen@[m]@ != tss@[k2 as int]@,
                    found ==> exists|m: int|
                        0 <= m < seen@.len() && seen@[m]@ == tss@[k2 as int]@,
                ensures
                    found ==> exists|m: int|
                        0 <= m < seen@.len() && seen@[m]@ == tss@[k2 as int]@,
                    !found ==> forall|m: int| 0 <= m < seen@.len() ==> seen@[m]@ != tss@[
                        k2 as int
                    ]@,
                decreases seen@.len() - j2,
            {
                if j2 == seen.len() {
                    break ;
                }
                if seqs_eq(&seen[j2], &tss[k2]) {
                    found = true;
                    break ;
                }
                j2 += 1;
            }
            proof {
                let tv = views_of(tss@);
                let sv = views_of(seen@);
                if found {
                    let m = choose|m: int| 0 <= m < seen@.len() && seen@[m]@ == tss@[k2 as int]@;
                    assert(sv[m] == tss@[k2 as int]@);
                    assert(sv.contains(tv[k2 as int]));
                } else {
                    assert forall|m: int| 0 <= m < sv.len() implies sv[m] != tv[k2 as int] by {
                        assert(sv[m] == seen@[m]@);
                    }
                    assert(!sv.contains(tv[k2 as int]));
                }
            }
            if !found {
                let t2 = clone_chars(&tss[k2]);
                proof {
                    assert(views_of(seen@.push(t2)) =~= views_of(seen@).push(t2@));
                }
                seen.push(t2);
            }
            k2 += 1;
        }
        proof {
            assert(views_of(tss@).take(tss@.len() as int) =~= views_of(tss@));
        }

        let mut stats: Vec<(String, String)> = Vec::new();
        let ut = dec_chars(seen.len() as u128);
        stats.push((String::from_str("unique_timestamps"), string_of(&ut)));
        proof {
            assert(stat_views(stats@) =~= log_stats(lv));
        }

        FileSummary {
            file_type: FileType::Log,
            line_count,
            word_count,
            char_count,
            key_insights: insights,
            statistics: stats,
        }
    }

    /// Analyzes the content as Rust source code: universal counts, symbol
    /// tables (functions, structs, enums), import and comment counts, the
    /// TODO/FIXME count, and the comment ratio.
    #[verifier::rlimit(100)]
    #[verifier::spinoff_prover]
    pub fn analyze_rust_code(&self) -> (r: FileSummary)
        requires
            self.wf(),
        ensures
            r.file_type == FileType::RustCode,
            r.line_count == line_seqs(self.content@).len(),
            r.word_count == words_of(self.content@).len(),
            r.char_count == self.content@.len(),
            str_views(r.key_insights@) == rust_insights(line_seqs(self.content@)),
            stat_views(r.statistics@) == rust_stats(line_seqs(self.content@)),
    {
        let counts = self.basic_stats();
        let line_count = counts.0;
        let word_count = counts.1;
        let char_count = counts.2;
        let ghost lv = line_seqs(self.content@);

        let p_fn = chars_of("fn ");
        let p_sfn = chars_of(" fn ");
        let p_paren = chars_of("(");
        let p_struct = chars_of("struct ");
        let p_enum = chars_of("enum ");
        let p_use = chars_of("use ");
        let p_lc = chars_of("//");
        let p_bc = chars_of("/*");
        let p_todo = chars_of("TODO");
        let p_fixme = chars_of("FIXME");
        proof {
            reveal_strlit("fn ");
            reveal_strlit(" fn ");
            reveal_strlit("(");
            reveal_strlit("struct ");
            reveal_strlit("enum ");
            reveal_strlit("use ");
            reveal_strlit("//");
            reveal_strlit("/*");
            reveal_strlit("TODO");
            reveal_strlit("FIXME");
        }

        let mut fns: Vec<Vec<char>> = Vec::new();
        let mut sts: Vec<Vec<char>> = Vec::new();
        let mut ens: Vec<Vec<char>> = Vec::new();
        let mut imports: usize = 0;
        let mut comments: usize = 0;
        let mut todos: usize = 0;
        let mut i: usize = 0;
        proof {
            assert(lv.take(0) =~= Seq::<Seq<char>>::empty());
            assert(views_of(fns@) =~= fn_names_of(lv.take(0)));
            assert(views_of(sts@) =~= struct_names_of(lv.take(0)));
            assert(views_of(ens@) =~= enum_names_of(lv.take(0)));
        }
        while i < self.lines.len()
            invariant
                i <= self.lines@.len(),
                str_views(self.lines@) == lv,
                lv == line_seqs(self.content@),
                p_fn@ == "fn "@ && p_fn@.len() == 3,
                p_sfn@ == " fn "@ && p_sfn@.len() == 4,
                p_paren@ == "("@ && p_paren@.len() == 1,
                p_struct@ == "struct "@ && p_struct@.len() == 7,
                p_enum@ == "enum "@ && p_enum@.len() == 5,
                p_use@ == "use "@ && p_use@.len() == 4,
                p_lc@ == "//"@ && p_lc@.len() == 2,
                p_bc@ == "/*"@ && p_bc@.len() == 2,
                p_todo@ == "TODO"@ && p_todo@.len() == 4,
                p_fixme@ == "FIXME"@ && p_fixme@.len() == 5,
                views_of(fns@) == fn_names_of(lv.take(i as int)),
                views_of(sts@) == struct_names_of(lv.take(i as int)),
                views_of(ens@) == enum_names_of(lv.take(i as int)),
                imports as int == import_count(lv.take(i as int)),
                comments as int == comment_count(lv.take(i as int)),
                todos as int == todo_count(lv.take(i as int)),
            decreases self.lines@.len() - i,
        {
            let line = &self.lines[i];
            let lc = chars_of(line.as_str());
            let t = trim_exec(&lc);
            proof {
                assert(lv[i as int] == self.lines@[i as int]@);
                assert(lc@ == lv[i as int]);
                assert(lv.take(i + 1).drop_last() =~= lv.take(i as int));
                assert(lv.take(i + 1).last() == lv[i as int]);
                lemma_count_lines_le(lv.take(i as int), |l: Seq<char>| is_import_line(l));
                lemma_count_lines_le(lv.take(i as int), |l: Seq<char>| is_comment_line(l));
                lemma_count_lines_le(lv.take(i as int), |l: Seq<char>| is_todo_line(l));
            }

            let starts_fn = t.len() >= p_fn.len() && is_match_at(&t, &p_fn, 0);
            if starts_fn || has_sub_exec(&t, &p_sfn) {
                match find_first(&t, &p_fn) {
                    Some(fi) => {
                        proof {
                            lemma_first_sub(t@, p_fn@);
                            assert(fi as int == first_sub(t@, "fn "@));
                        }
                        let rest = skip_chars(&t, fi + p_fn.len());
                        match find_first(&rest, &p_paren) {
                            Some(pj) => {
                                let head = take_chars(&rest, pj);
                                let name = trim_exec(&head);
                                proof {
                                    lemma_first_sub(rest@, p_paren@);
                                    assert(pj as int == first_sub(rest@, "("@));
                                    assert(fn_name_of(lv[i as int]) == Some(name@));
                                    assert(views_of(fns@.push(name)) =~= views_of(fns@).push(
                                        name@,
                                    ));
                                }
                                fns.push(name);
                            },
                            None => {
                                proof {
                                    assert(fn_name_of(lv[i as int]) is None);
                                }
                            },
                        }
                    },
                    None => {
                        proof {
                            assert(fn_name_of(lv[i as int]) is None);
                        }
                    },
                }
            } else {
                proof {
                    assert(!sub_at(t@, "fn "@, 0));
                    assert(fn_name_of(lv[i as int]) is None);
                }
            }

            if t.len() >= p_struct.len() && is_match_at(&t, &p_struct, 0) {
                let parts = split_words(&t);
                if parts.len() >= 2 {
                    let name = clone_chars(&parts[1]);
                    proof {
                        assert(views_of(parts@)[1] == parts@[1]@);
                        assert(second_token_of(lv[i as int], "struct "@) == Some(name@));
                        assert(views_of(sts@.push(name)) =~= views_of(sts@).push(name@));
                    }
                    sts.push(name);
                } else {
                    proof {
                        assert(second_token_of(lv[i as int], "struct "@) is None);
                    }
                }
            } else {
                proof {
                    assert(second_token_of(lv[i as int], "struct "@) is None);
                }
            }

            if t.len() >= p_enum.len() && is_match_at(&t, &p_enum, 0) {
                let parts = split_words(&t);
                if parts.len() >= 2 {
                    let name = clone_chars(&parts[1]);
                    proof {
                        assert(views_of(parts@)[1] == parts@[1]@);
                        assert(second_token_of(lv[i as int], "enum "@) == Some(name@));
                        assert(views_of(ens@.push(name)) =~= views_of(ens@).push(name@));
                    }
                    ens.push(name);
                } else {
                    proof {
                        assert(second_token_of(lv[i as int], "enum "@) is None);
                    }
                }
            } else {
                proof {
                    assert(second_token_of(lv[i as int], "enum "@) is None);
                }
            }

            if t.len() >= p_use.len() && is_match_at(&t, &p_use, 0) {
                imports = imports + 1;
            } else {
                proof {
                    assert(!is_import_line(lv[i as int]));
                }
            }

            let cmt1 = t.len() >= p_lc.len() && is_match_at(&t, &p_lc, 0);
            let cmt2 = t.len() >= p_bc.len() && is_match_at(&t, &p_bc, 0);
            if cmt1 || cmt2 {
                comments = comments + 1;
            } else {
                proof {
                    assert(!is_comment_line(lv[i as int]));
                }
            }

            let ts = string_of(&t);
            let uts = upper_str(ts.as_str());
            let ut = chars_of(uts.as_str());
            proof {
                assert(ut@ == upper_of(trim_of(lv[i as int])));
            }
            if has_sub_exec(&ut, &p_todo) || has_sub_exec(&ut, &p_fixme) {
                todos = todos + 1;
            } else {
                proof {
                    assert(!is_todo_line(lv[i as int]));
                }
            }

            i += 1;
        }
        proof {
            assert(lv.take(self.lines@.len() as int) =~= lv);
        }

        let mut insights: Vec<String> = Vec::new();
        let ghost fnv = fn_names_of(lv);
        let ghost stv = struct_names_of(lv);
        let ghost env = enum_names_of(lv);

        if fns.len() > 0 {
            let cap: usize = if fns.len() > 5 {
                5
            } else {
                fns.len()
            };
            let mut sample: Vec<Vec<char>> = Vec::new();
            let mut k: usize = 0;
            proof {
                assert(views_of(fns@).take(0) =~= Seq::<Seq<char>>::empty());
                assert(views_of(sample@) =~= views_of(fns@).take(0));
            }
            while k < cap
                invariant
                    k <= cap <= fns@.len(),
                    views_of(sample@) == views_of(fns@).take(k as int),
                decreases cap - k,
            {
                let name = clone_chars(&fns[k]);
                proof {
                    assert(views_of(fns@)[k as int] == fns@[k as int]@);
                    assert(views_of(sample@.push(name)) =~= views_of(sample@).push(name@));
                    assert(views_of(fns@).take(k + 1) =~= views_of(fns@).take(k as int).push(
                        views_of(fns@)[k as int],
                    ));
                }
                sample.push(name);
                k += 1;
            }
            proof {
                assert(views_of(sample@) =~= first_five(fnv));
            }
            let mut ins = chars_of("Functions (");
            let d = dec_chars(fns.len() as u128);
            extend_chars(&mut ins, &d);
            extend_chars(&mut ins, &chars_of("): "));
            let joined = join_chars(&sample, &chars_of(", "));
            extend_chars(&mut ins, &joined);
            let s = string_of(&ins);
            proof {
                assert(s@ =~= "Functions ("@ + dec_str(fnv.len() as int) + "): "@ + join_with(
                    first_five(fnv),
                    ", "@,
                ));
                assert(str_views(insights@.push(s)) =~= str_views(insights@).push(s@));
            }
            insights.push(s);
        }
        proof {
            assert(str_views(insights@) =~= (if fnv.len() > 0 {
                seq![
                    "Functions ("@ + dec_str(fnv.len() as int) + "): "@ + join_with(
                        first_five(fnv),
                        ", "@,
                    ),
                ]
            } else {
                Seq::<Seq<char>>::empty()
            }));
        }
        let ghost chunk1 = str_views(insights@);

        if sts.len() > 0 {
            let mut ins = chars_of("Structs: ");
            let joined = join_chars(&sts, &chars_of(", "));
            extend_chars(&mut ins, &joined);
            let s = string_of(&ins);
            proof {
                assert(str_views(insights@.push(s)) =~= str_views(insights@).push(s@));
            }
            insights.push(s);
        }
        proof {
            assert(str_views(insights@) =~= chunk1 + (if stv.len() > 0 {
                seq!["Structs: "@ + join_with(stv, ", "@)]
            } else {
                Seq::<Seq<char>>::empty()
            }));
        }
        let ghost chunk2 = str_views(insights@);

        if ens.len() > 0 {
            let mut ins = chars_of("Enums: ");
            let joined = join_chars(&ens, &chars_of(", "));
            extend_chars(&mut ins, &joined);
            let s = string_of(&ins);
            proof {
                assert(str_views(insights@.push(s)) =~= str_views(insights@).push(s@));
            }
            insights.push(s);
        }
        proof {
            assert(str_views(insights@) =~= chunk2 + (if env.len() > 0 {
                seq!["Enums: "@ + join_with(env, ", "@)]
            } else {
                Seq::<Seq<char>>::empty()
            }));
        }
        let ghost chunk3 = str_views(insights@);

        if todos > 0 {
            let mut ins = chars_of("TODOs/FIXMEs found: ");
            let d = dec_chars(todos as u128);
            extend_chars(&mut ins, &d);
            let s = string_of(&ins);
            proof {
                assert(str_views(insights@.push(s)) =~= str_views(insights@).push(s@));
            }
            insights.push(s);
        }
        proof {
            assert(str_views(insights@) =~= chunk3 + (if todo_count(lv) > 0 {
                seq!["TODOs/FIXMEs found: "@ + dec_str(todo_count(lv))]
            } else {
                Seq::<Seq<char>>::empty()
            }));
            assert(str_views(insights@) =~= rust_insights(lv));
        }

        let mut stats: Vec<(String, String)> = Vec::new();
        let fc = dec_chars(fns.len() as u128);
        stats.push((String::from_str("functions"), string_of(&fc)));
        let sc = dec_chars(sts.len() as u128);
        stats.push((String::from_str("structs"), string_of(&sc)));
        let ec = dec_chars(ens.len() as u128);
        stats.push((String::from_str("enums"), string_of(&ec)));
        let ic = dec_chars(imports as u128);
        stats.push((String::from_str("imports"), string_of(&ic)));
        let mut pr = ratio_chars((comments as u128) * 100, line_count as u128);
        extend_chars(&mut pr, &chars_of("%"));
        stats.push((String::from_str("comment_ratio"), string_of(&pr)));
        proof {
            assert(pr@ == ratio_str(comment_count(lv) * 100, lv.len() as int) + "%"@);
            assert(stat_views(stats@) =~= rust_stats(lv));
        }

        FileSummary {
            file_type: FileType::RustCode,
            line_count,
            word_count,
            char_count,
            key_insights: insights,
            statistics: stats,
        }
    }

    /// Analyzes the content as plain text: universal counts, the top-word
    /// insight when any word qualifies, and the two average statistics.
    pub fn analyze_text(&self) -> (r: FileSummary)
        requires
            self.wf(),
        ensures
            r.file_type == FileType::Text,
            r.line_count == line_seqs(self.content@).len(),
            r.word_count == words_of(self.content@).len(),
            r.char_count == self.content@.len(),
            str_views(r.key_insights@) == text_insights(self.content@),
            stat_views(r.statistics@) == text_stats(self.content@),
    {
        let counts = self.basic_stats();
        let line_count = counts.0;
        let word_count = counts.1;
        let char_count = counts.2;

        let cv = chars_of(self.content.as_str());
        let words = split_words(&cv);
        let entries = freq_accumulate(&words);
        let sorted = sort_by_count(&entries);
        proof {
            assert(pair_views(sorted@) == word_freq_of(self.content@));
        }

        let mut tops: Vec<Vec<char>> = Vec::new();
        let mut i: usize = 0;
        proof {
            assert(views_of(tops@) =~= top_word_strs(pair_views(sorted@).take(0)));
        }
        while i < sorted.len()
            invariant
                i <= sorted@.len(),
                views_of(tops@) == top_word_strs(pair_views(sorted@).take(i as int)),
            decreases sorted@.len() - i,
        {
            proof {
                let pv = pair_views(sorted@);
                assert(pv.take(i + 1).drop_last() =~= pv.take(i as int));
                assert(pv.take(i + 1).last() == pv[i as int]);
                assert(pv[i as int] == (sorted@[i as int].0@, sorted@[i as int].1 as int));
            }
            if tops.len() < 5 && sorted[i].0.len() > 3 {
                let mut t = clone_chars(&sorted[i].0);
                extend_chars(&mut t, &chars_of(" ("));
                let d = dec_chars(sorted[i].1 as u128);
                extend_chars(&mut t, &d);
                extend_chars(&mut t, &chars_of(")"));
                proof {
                    assert(t@ =~= freq_entry_str(pair_views(sorted@)[i as int]));
                    assert(views_of(tops@.push(t)) =~= views_of(tops@).push(t@));
                }
                tops.push(t);
            }
            i += 1;
        }
        proof {
            assert(pair_views(sorted@).take(sorted@.len() as int) =~= pair_views(sorted@));
        }

        let mut insights: Vec<String> = Vec::new();
        if tops.len() > 0 {
            let mut ins = chars_of("Most frequent words: ");
            let joined = join_chars(&tops, &chars_of(", "));
            extend_chars(&mut ins, &joined);
            let s = string_of(&ins);
            proof {
                assert(str_views(insights@.push(s)) =~= str_views(insights@).push(s@));
            }
            insights.push(s);
        }
        proof {
            assert(str_views(insights@) =~= text_insights(self.content@));
        }

        let mut sum: usize = 0;
        let mut k: usize = 0;
        proof {
            assert(sum as int == total_len(views_of(words@).take(0))) by {
                assert(views_of(words@).take(0) =~= Seq::<Seq<char>>::empty());
            }
        }
        while k < words.len()
            invariant
                k <= words@.len(),
                views_of(words@) == words_of(self.content@),
                self.content@.len() <= usize::MAX,
                sum as int == total_len(views_of(words@).take(k as int)),
            decreases words@.len() - k,
        {
            proof {
                let wv = views_of(words@);
                assert(wv.take(k + 1).drop_last() =~= wv.take(k as int));
                assert(wv.take(k + 1).last() == wv[k as int]);
                assert(wv[k as int] == words@[k as int]@);
                lemma_total_len_words(self.content@);
                lemma_total_len_take(wv, k + 1);
            }
            sum = sum + words[k].len();
            k += 1;
        }
        proof {
            assert(views_of(words@).take(words@.len() as int) =~= views_of(words@));
        }

        let mut stats: Vec<(String, String)> = Vec::new();
        let awl = ratio_chars(sum as u128, word_count as u128);
        stats.push((String::from_str("avg_word_length"), string_of(&awl)));
        let all = ratio_chars(char_count as u128, line_count as u128);
        stats.push((String::from_str("avg_line_length"), string_of(&all)));
        proof {
            assert(stat_views(stats@) =~= text_stats(self.content@));
        }

        FileSummary {
            file_type: FileType::Text,
            line_count,
            word_count,
            char_count,
            key_insights: insights,
            statistics: stats,
        }
    }
}

} // verus!
