use vstd::prelude::*;
use vstd::string::StringSliceAdditionalSpecFns;
use vstd::utf8::*;
use crate::args::GrepArgs;
use crate::output::{
    colored_text, join_lines, lemma_colored_matched_parts, lemma_colored_text_keeps_the_line,
    lemma_matched_parts_are_lines, lemma_without_highlights_clean, matched_parts_text, matches_cut_no_char,
    no_escape, ranges_in_order, ranges_on_char_boundaries, without_highlights, ESCAPE, prefix_text, render_all_results,
    render_colored_results, render_result, NEWLINE,
};
use crate::pattern::error::PatternError;
use crate::pattern::matcher::{
    lemma_has_match_agrees_with_search, lemma_scan_ranges, scan_matches, search_from, tokens_wf, CompiledPattern, PatternToken,
};
use crate::pattern::parser::{find_byte, find_byte_in, lemma_ascii_boundaries, sub_text};

verus! {

broadcast use vstd::string::group_string_axioms;

/// The byte `\r`.
pub const CARRIAGE_RETURN: u8 = 13;

/// A position found by `find_byte` lies in the range searched and holds the byte.
pub proof fn lemma_find_byte_found(p: Seq<u8>, from: int, hi: int, b: u8)
    ensures
        find_byte(p, from, hi, b) matches Some(j) ==> from <= j < hi && p[j] == b,
    decreases hi - from,
{
    if from < hi && p[from] != b {
        lemma_find_byte_found(p, from + 1, hi, b);
    }
}

/// A line without the `\r` that ends it, if one does.
pub open spec fn without_cr(line: Seq<u8>) -> Seq<u8> {
    if line.len() > 0 && line.last() == CARRIAGE_RETURN {
        line.drop_last()
    } else {
        line
    }
}

/// The lines of `text` from byte `start` on, as `str::lines` gives them: each
/// line ends before a `\n`, and before a `\r` that comes just before that `\n`;
/// what follows the last `\n` is a last line unless it is empty.
pub open spec fn lines_from(text: Seq<u8>, start: int) -> Seq<Seq<u8>>
    decreases text.len() - start,
{
    if start < 0 || start >= text.len() {
        Seq::empty()
    } else {
        match find_byte(text, start, text.len() as int, NEWLINE) {
            None => seq![text.subrange(start, text.len() as int)],
            Some(j) => {
                proof {
                    lemma_find_byte_found(text, start, text.len() as int, NEWLINE);
                }
                seq![without_cr(text.subrange(start, j))] + lines_from(text, j + 1)
            },
        }
    }
}

/// The lines of `text`.
pub open spec fn text_lines(text: Seq<u8>) -> Seq<Seq<u8>> {
    lines_from(text, 0)
}

/// What searching one line writes, and whether it matched: with `only_matching`
/// each match on a line of its own; else, if the line matches, the whole line,
/// its matches highlighted in `color_mode`.
pub open spec fn line_report(
    line: Seq<u8>,
    toks: Seq<PatternToken>,
    path: Seq<u8>,
    print_file_name: bool,
    only_matching: bool,
    color_mode: bool,
) -> Result<(bool, Seq<u8>), PatternError> {
    let prefix = prefix_text(path, print_file_name);
    if only_matching {
        match scan_matches(line, toks, 0, false) {
            Err(n) => Err(PatternError::InvalidBackreference(n)),
            Ok((h, ranges)) => Ok((h, matched_parts_text(line, ranges, prefix, color_mode))),
        }
    } else if color_mode {
        match scan_matches(line, toks, 0, false) {
            Err(n) => Err(PatternError::InvalidBackreference(n)),
            Ok((h, ranges)) => Ok(
                (
                    h,
                    if h {
                        (prefix + colored_text(line, ranges)).push(NEWLINE)
                    } else {
                        Seq::empty()
                    },
                ),
            ),
        }
    } else {
        match search_from(line, toks, 0) {
            Err(n) => Err(PatternError::InvalidBackreference(n)),
            Ok(b) => Ok(
                (
                    b,
                    if b {
                        (prefix + line).push(NEWLINE)
                    } else {
                        Seq::empty()
                    },
                ),
            ),
        }
    }
}

/// What searching the lines in order writes, and whether any matched; the
/// search stops at the first line whose search fails, with that error, keeping
/// what the lines before it wrote.
pub open spec fn content_report(
    lines: Seq<Seq<u8>>,
    toks: Seq<PatternToken>,
    path: Seq<u8>,
    print_file_name: bool,
    only_matching: bool,
    color_mode: bool,
) -> (Seq<u8>, Result<bool, PatternError>)
    decreases lines.len(),
{
    if lines.len() == 0 {
        (Seq::empty(), Ok(false))
    } else {
        let (out, res) = content_report(
            lines.drop_last(),
            toks,
            path,
            print_file_name,
            only_matching,
            color_mode,
        );
        match res {
            Err(e) => (out, Err(e)),
            Ok(any) => match line_report(
                lines.last(),
                toks,
                path,
                print_file_name,
                only_matching,
                color_mode,
            ) {
                Err(e) => (out, Err(e)),
                Ok((m, text)) => (out + text, Ok(any || m)),
            },
        }
    }
}

/// Once the search of a line fails, the lines after it change nothing.
proof fn lemma_report_keeps_error(
    lines: Seq<Seq<u8>>,
    k: int,
    toks: Seq<PatternToken>,
    path: Seq<u8>,
    print_file_name: bool,
    only_matching: bool,
    color_mode: bool,
)
    requires
        0 <= k <= lines.len(),
        content_report(lines.subrange(0, k), toks, path, print_file_name, only_matching, color_mode).1 is Err,
    ensures
        content_report(lines, toks, path, print_file_name, only_matching, color_mode) == content_report(
            lines.subrange(0, k),
            toks,
            path,
            print_file_name,
            only_matching,
            color_mode,
        ),
    decreases lines.len() - k,
{
    if k < lines.len() {
        let next = lines.subrange(0, k + 1);
        assert(next.drop_last() =~= lines.subrange(0, k));
        lemma_report_keeps_error(lines, k + 1, toks, path, print_file_name, only_matching, color_mode);
    } else {
        assert(lines.subrange(0, k) =~= lines);
    }
}

/// The lines from a position inside the text: the line that starts there, then
/// the lines after its `\n`.
proof fn lemma_lines_from_step(text: Seq<u8>, pos: int)
    requires
        0 <= pos < text.len(),
    ensures
        find_byte(text, pos, text.len() as int, NEWLINE) matches None ==> lines_from(text, pos) == seq![
            text.subrange(pos, text.len() as int),
        ] && lines_from(text, text.len() as int) == Seq::<Seq<u8>>::empty(),
        find_byte(text, pos, text.len() as int, NEWLINE) matches Some(j) ==> lines_from(text, pos)
            == seq![without_cr(text.subrange(pos, j))] + lines_from(text, j + 1),
{
    lemma_find_byte_found(text, pos, text.len() as int, NEWLINE);
}

/// Searches one line as the flags ask, appending what is to be written to `out`.
fn search_line(
    line: &str,
    compiled_pattern: &CompiledPattern,
    file_path: &str,
    print_file_name: bool,
    only_matching: bool,
    color_mode: bool,
    out: &mut Vec<u8>,
) -> (r: Result<bool, PatternError>)
    requires
        tokens_wf(compiled_pattern.tokens@),
        line.spec_bytes().len() < usize::MAX,
        only_matching || color_mode ==> matches_cut_no_char(line.spec_bytes(), compiled_pattern.tokens@),
    ensures
        match line_report(
            line.spec_bytes(),
            compiled_pattern.tokens@,
            file_path.spec_bytes(),
            print_file_name,
            only_matching,
            color_mode,
        ) {
            Err(e) => r == Err::<bool, PatternError>(e) && final(out)@ == old(out)@,
            Ok((m, text)) => r == Ok::<bool, PatternError>(m) && final(out)@ == old(out)@ + text,
        },
{
    if only_matching {
        render_all_results(line, compiled_pattern, file_path, print_file_name, color_mode, out)
    } else if color_mode {
        render_colored_results(line, compiled_pattern, file_path, print_file_name, out)
    } else {
        render_result(line, compiled_pattern, file_path, print_file_name, out)
    }
}

/// Whether the search of one line in the given mode ends without error.
pub open spec fn line_searchable(line: Seq<u8>, toks: Seq<PatternToken>, only_matching: bool, color_mode: bool) -> bool {
    if only_matching || color_mode {
        scan_matches(line, toks, 0, false) is Ok
    } else {
        search_from(line, toks, 0) is Ok
    }
}

/// Whether a search of the lines in order reaches line `i`: the search of each
/// line before it ends without error.
pub open spec fn line_reached(
    lines: Seq<Seq<u8>>,
    i: int,
    toks: Seq<PatternToken>,
    only_matching: bool,
    color_mode: bool,
) -> bool {
    forall|j: int| 0 <= j < i ==> #[trigger] line_searchable(lines[j], toks, only_matching, color_mode)
}

/// Whether, where matches are written in part (`-o` or color), no match on a
/// line among the first `limit` that the search reaches cuts a character in two.
pub open spec fn reached_lines_cut_no_char(
    lines: Seq<Seq<u8>>,
    limit: int,
    toks: Seq<PatternToken>,
    only_matching: bool,
    color_mode: bool,
) -> bool {
    only_matching || color_mode ==> forall|i: int|
        0 <= i < limit && i < lines.len() && #[trigger] line_reached(lines, i, toks, only_matching, color_mode)
            ==> matches_cut_no_char(lines[i], toks)
}

/// A search of lines ends without error exactly when each line's does.
pub proof fn lemma_report_ok_iff_lines_searchable(
    lines: Seq<Seq<u8>>,
    toks: Seq<PatternToken>,
    path: Seq<u8>,
    print_file_name: bool,
    only_matching: bool,
    color_mode: bool,
)
    ensures
        content_report(lines, toks, path, print_file_name, only_matching, color_mode).1 is Ok
            <==> line_reached(lines, lines.len() as int, toks, only_matching, color_mode),
    decreases lines.len(),
{
    if lines.len() > 0 {
        let init = lines.drop_last();
        lemma_report_ok_iff_lines_searchable(init, toks, path, print_file_name, only_matching, color_mode);
        assert(lines[lines.len() - 1] == lines.last());
        if line_reached(lines, lines.len() as int, toks, only_matching, color_mode) {
            assert forall|j: int| 0 <= j < init.len() implies #[trigger] line_searchable(
                init[j],
                toks,
                only_matching,
                color_mode,
            ) by {
                assert(init[j] == lines[j]);
                assert(line_searchable(lines[j], toks, only_matching, color_mode));
            }
            assert(line_searchable(lines.last(), toks, only_matching, color_mode));
        }
        if content_report(lines, toks, path, print_file_name, only_matching, color_mode).1 is Ok {
            assert forall|j: int| 0 <= j < lines.len() implies #[trigger] line_searchable(
                lines[j],
                toks,
                only_matching,
                color_mode,
            ) by {
                if j < init.len() {
                    assert(init[j] == lines[j]);
                    assert(line_searchable(init[j], toks, only_matching, color_mode));
                }
            }
        }
    }
}

/// There are no more lines than bytes after `start`.
proof fn lemma_lines_count(text: Seq<u8>, start: int)
    requires
        0 <= start <= text.len(),
    ensures
        lines_from(text, start).len() <= text.len() - start,
    decreases text.len() - start,
{
    if start < text.len() {
        lemma_lines_from_step(text, start);
        lemma_find_byte_found(text, start, text.len() as int, NEWLINE);
        if let Some(j) = find_byte(text, start, text.len() as int, NEWLINE) {
            lemma_lines_count(text, j + 1);
        }
    }
}

/// The line of `content` that starts at `pos`, and where the line after it starts.
fn next_line<'a>(content: &'a str, pos: usize) -> (r: (&'a str, usize))
    requires
        pos < content.spec_bytes().len() < usize::MAX,
        pos == 0 || content.spec_bytes()[pos - 1] == NEWLINE,
    ensures
        lines_from(content.spec_bytes(), pos as int) == seq![r.0.spec_bytes()] + lines_from(
            content.spec_bytes(),
            r.1 as int,
        ),
        pos < r.1 <= content.spec_bytes().len(),
        r.1 < content.spec_bytes().len() ==> content.spec_bytes()[r.1 - 1] == NEWLINE,
        r.0.spec_bytes().len() <= r.1 - pos,
{
    let text = content.as_bytes();
    let found = find_byte_in(text, pos, text.len(), NEWLINE);
    proof {
        lemma_lines_from_step(text@, pos as int);
    }
    let (line_end, next) = match found {
        None => (text.len(), text.len()),
        Some(j) => {
            if j > pos && text[j - 1] == CARRIAGE_RETURN {
                (j - 1, j + 1)
            } else {
                (j, j + 1)
            }
        },
    };
    proof {
        encode_utf8_valid_utf8(content@);
        if pos == 0 {
            is_char_boundary_start_end_of_seq(text@);
        } else {
            lemma_ascii_boundaries(text@, pos - 1);
        }
    }
    let line = sub_text(content, pos, line_end);
    proof {
        if let Some(j) = found {
            assert(line.spec_bytes() =~= without_cr(text@.subrange(pos as int, j as int)));
        }
        assert(lines_from(text@, pos as int) =~= seq![line.spec_bytes()] + lines_from(text@, next as int));
    }
    (line, next)
}

/// Searches the first `line_count` lines of `content` as `grep_args` asks (all of
/// them when there are fewer), naming lines after `file_path`. Returns what is to
/// be written, then whether any of those lines matched; where the search of a
/// line fails, the error comes in place of that answer, after what the lines
/// before it wrote.
pub fn match_first_lines(
    content: &str,
    compiled_pattern: &CompiledPattern,
    grep_args: &GrepArgs,
    file_path: &str,
    line_count: usize,
) -> (r: (Vec<u8>, Result<bool, PatternError>))
    requires
        tokens_wf(compiled_pattern.tokens@),
        content.spec_bytes().len() < usize::MAX,
        reached_lines_cut_no_char(
            text_lines(content.spec_bytes()),
            line_count as int,
            compiled_pattern.tokens@,
            grep_args.only_matching,
            grep_args.color_mode,
        ),
    ensures
        (r.0@, r.1) == content_report(
            text_lines(content.spec_bytes()).subrange(
                0,
                if line_count < text_lines(content.spec_bytes()).len() {
                    line_count as int
                } else {
                    text_lines(content.spec_bytes()).len() as int
                },
            ),
            compiled_pattern.tokens@,
            file_path.spec_bytes(),
            grep_args.print_file_name,
            grep_args.only_matching,
            grep_args.color_mode,
        ),
{
    let text = content.as_bytes();
    let ghost toks = compiled_pattern.tokens@;
    let ghost path = file_path.spec_bytes();
    let ghost all = text_lines(text@);
    let pfn = grep_args.print_file_name;
    let only = grep_args.only_matching;
    let color = grep_args.color_mode;
    let mut out: Vec<u8> = Vec::new();
    let mut is_any_match = false;
    let mut pos: usize = 0;
    let mut count: usize = 0;
    let ghost mut done: Seq<Seq<u8>> = Seq::empty();
    assert(done + lines_from(text@, 0) =~= all);
    while pos < text.len() && count < line_count
        invariant
            text@ == content.spec_bytes(),
            text@.len() < usize::MAX,
            pos <= text@.len(),
            pos < text@.len() ==> (pos == 0 || text@[pos - 1] == NEWLINE),
            done + lines_from(text@, pos as int) == all,
            done.len() == count,
            count <= line_count,
            content_report(done, toks, path, pfn, only, color) == (out@, Ok::<bool, PatternError>(
                is_any_match,
            )),
            toks == compiled_pattern.tokens@,
            path == file_path.spec_bytes(),
            all == text_lines(content.spec_bytes()),
            pfn == grep_args.print_file_name,
            only == grep_args.only_matching,
            color == grep_args.color_mode,
            tokens_wf(toks),
            reached_lines_cut_no_char(all, line_count as int, toks, only, color),
        decreases text@.len() - pos,
    {
        let (line, next) = next_line(content, pos);
        let ghost lb = line.spec_bytes();
        proof {
            assert(done.push(lb) + lines_from(text@, next as int) =~= all);
            assert(all[done.len() as int] == lb);
            assert(done =~= all.subrange(0, done.len() as int));
            lemma_report_ok_iff_lines_searchable(done, toks, path, pfn, only, color);
            assert(line_reached(all, done.len() as int, toks, only, color)) by {
                assert forall|j: int| 0 <= j < done.len() implies #[trigger] line_searchable(
                    all[j],
                    toks,
                    only,
                    color,
                ) by {
                    assert(done[j] == all[j]);
                    assert(line_searchable(done[j], toks, only, color));
                }
            }
        }
        let res = search_line(line, compiled_pattern, file_path, pfn, only, color, &mut out);
        proof {
            let pre = done.push(lb);
            assert(pre.drop_last() =~= done);
            assert(pre.last() == lb);
        }
        match res {
            Ok(m) => {
                is_any_match = is_any_match || m;
            },
            Err(e) => {
                proof {
                    let limit = if line_count < all.len() {
                        line_count as int
                    } else {
                        all.len() as int
                    };
                    let whole = all.subrange(0, limit);
                    assert(done.push(lb) =~= whole.subrange(0, done.len() + 1 as int));
                    lemma_report_keeps_error(whole, done.len() + 1 as int, toks, path, pfn, only, color);
                }
                return (out, Err(e));
            },
        }
        proof {
            done = done.push(lb);
        }
        pos = next;
        count += 1;
    }
    proof {
        if pos >= text.len() {
            assert(lines_from(text@, pos as int) =~= Seq::<Seq<u8>>::empty());
            assert(done =~= all);
            assert(all.subrange(0, all.len() as int) =~= all);
        } else {
            assert(done =~= all.subrange(0, line_count as int));
        }
    }
    (out, Ok(is_any_match))
}

/// Searches each line of `content` as `grep_args` asks, naming lines after
/// `file_path`. Returns what is to be written, then whether any line matched;
/// where the search of a line fails, the error comes in place of that answer,
/// after what the lines before it wrote.
pub fn match_content(
    content: &str,
    compiled_pattern: &CompiledPattern,
    grep_args: &GrepArgs,
    file_path: &str,
) -> (r: (Vec<u8>, Result<bool, PatternError>))
    requires
        tokens_wf(compiled_pattern.tokens@),
        content.spec_bytes().len() < usize::MAX,
        reached_lines_cut_no_char(
            text_lines(content.spec_bytes()),
            text_lines(content.spec_bytes()).len() as int,
            compiled_pattern.tokens@,
            grep_args.only_matching,
            grep_args.color_mode,
        ),
    ensures
        (r.0@, r.1) == content_report(
            text_lines(content.spec_bytes()),
            compiled_pattern.tokens@,
            file_path.spec_bytes(),
            grep_args.print_file_name,
            grep_args.only_matching,
            grep_args.color_mode,
        ),
{
    let ghost all = text_lines(content.spec_bytes());
    proof {
        lemma_lines_count(content.spec_bytes(), 0);
        assert(all.subrange(0, all.len() as int) =~= all);
        assert forall|i: int|
            0 <= i < usize::MAX && i < all.len() && #[trigger] line_reached(
                all,
                i,
                compiled_pattern.tokens@,
                grep_args.only_matching,
                grep_args.color_mode,
            ) implies (grep_args.only_matching || grep_args.color_mode ==> matches_cut_no_char(
            all[i],
            compiled_pattern.tokens@,
        )) by {}
    }
    match_first_lines(content, compiled_pattern, grep_args, file_path, usize::MAX)
}

/// Where matches are written in part (`-o` or color), finds the first line that
/// the search reaches and on which a match cuts a character in two: returns its
/// index among the lines and the first such match range.
#[verifier::loop_isolation(false)]
pub fn first_cut_line(content: &str, compiled_pattern: &CompiledPattern, grep_args: &GrepArgs) -> (r: Option<
    (usize, usize, usize),
>)
    requires
        tokens_wf(compiled_pattern.tokens@),
        content.spec_bytes().len() < usize::MAX,
    ensures
        ({
            let all = text_lines(content.spec_bytes());
            let toks = compiled_pattern.tokens@;
            let only = grep_args.only_matching;
            let color = grep_args.color_mode;
            match r {
                None => reached_lines_cut_no_char(all, all.len() as int, toks, only, color),
                Some((k, s, e)) => {
                    &&& only || color
                    &&& k < all.len()
                    &&& line_reached(all, k as int, toks, only, color)
                    &&& reached_lines_cut_no_char(all, k as int, toks, only, color)
                    &&& scan_matches(all[k as int], toks, 0, false) matches Ok((_, ranges)) && exists|j: int|
                        0 <= j < ranges.len() && ranges[j] == (s, e) && !ranges_on_char_boundaries(
                            all[k as int],
                            seq![(s, e)],
                        ) && ranges_on_char_boundaries(all[k as int], ranges.subrange(0, j))
                }
            }
        }),
{
    let ghost all = text_lines(content.spec_bytes());
    let ghost toks = compiled_pattern.tokens@;
    let only = grep_args.only_matching;
    let color = grep_args.color_mode;
    if !(only || color) {
        return None;
    }
    let text = content.as_bytes();
    let mut pos: usize = 0;
    let mut count: usize = 0;
    let ghost mut done: Seq<Seq<u8>> = Seq::empty();
    assert(done + lines_from(text@, 0) =~= all);
    while pos < text.len()
        invariant
            text@ == content.spec_bytes(),
            text@.len() < usize::MAX,
            pos <= text@.len(),
            pos < text@.len() ==> (pos == 0 || text@[pos - 1] == NEWLINE),
            done + lines_from(text@, pos as int) == all,
            done.len() == count,
            count <= pos,
            toks == compiled_pattern.tokens@,
            all == text_lines(content.spec_bytes()),
            only == grep_args.only_matching,
            color == grep_args.color_mode,
            only || color,
            tokens_wf(toks),
            line_reached(all, count as int, toks, only, color),
            reached_lines_cut_no_char(all, count as int, toks, only, color),
        decreases text@.len() - pos,
    {
        let (line, next) = next_line(content, pos);
        let ghost lb = line.spec_bytes();
        proof {
            assert(done.push(lb) + lines_from(text@, next as int) =~= all);
            assert(all[done.len() as int] == lb);
        }
        match compiled_pattern.match_all_patterns(line) {
            Err(_) => {
                proof {
                    assert(!line_searchable(all[count as int], toks, only, color));
                    assert forall|i: int|
                        0 <= i < all.len() && #[trigger] line_reached(all, i, toks, only, color) implies matches_cut_no_char(
                        all[i],
                        toks,
                    ) by {
                        if i > count {
                            assert(line_searchable(all[count as int], toks, only, color));
                        }
                    }
                }
                return None;
            },
            Ok(found) => {
                let ranges = &found.ranges;
                let mut j: usize = 0;
                while j < ranges.len()
                    invariant
                        j <= ranges@.len(),
                        ranges_on_char_boundaries(lb, ranges@.subrange(0, j as int)),
                    decreases ranges@.len() - j,
                {
                    let (s, e) = ranges[j];
                    if !line.is_char_boundary(s) || !line.is_char_boundary(e) {
                        proof {
                            assert(ranges@[j as int] == (s, e));
                            let single = seq![(s, e)];
                            assert(single[0] == (s, e));
                            assert(!(is_char_boundary(lb, single[0].0 as int) && is_char_boundary(
                                lb,
                                single[0].1 as int,
                            )));
                            assert(!ranges_on_char_boundaries(lb, single));
                        }
                        return Some((count, s, e));
                    }
                    proof {
                        let pre = ranges@.subrange(0, j + 1);
                        assert forall|i: int| 0 <= i < pre.len() implies is_char_boundary(
                            lb,
                            (#[trigger] pre[i]).0 as int,
                        ) && is_char_boundary(lb, pre[i].1 as int) by {
                            if i < j {
                                assert(pre[i] == ranges@.subrange(0, j as int)[i]);
                            }
                        }
                    }
                    j += 1;
                }
                proof {
                    assert(ranges@.subrange(0, j as int) =~= ranges@);
                    assert(line_searchable(lb, toks, only, color));
                    assert forall|i: int|
                        0 <= i < count + 1 && i < all.len() && #[trigger] line_reached(
                            all,
                            i,
                            toks,
                            only,
                            color,
                        ) implies matches_cut_no_char(all[i], toks) by {
                        if i < count {
                            assert(line_reached(all, i, toks, only, color));
                        }
                    }
                    assert forall|i: int| 0 <= i < count + 1 implies #[trigger] line_searchable(
                        all[i],
                        toks,
                        only,
                        color,
                    ) by {}
                }
            },
        }
        proof {
            done = done.push(lb);
        }
        pos = next;
        count += 1;
    }
    proof {
        assert(lines_from(text@, pos as int) =~= Seq::<Seq<u8>>::empty());
        assert(done =~= all);
    }
    None
}

/// A search of lines that ends without error searched every line without error,
/// and reports a match exactly when one of the lines matched: the answer that
/// decides whether the program reports success.
pub proof fn lemma_report_matches_iff_some_line_matches(
    lines: Seq<Seq<u8>>,
    toks: Seq<PatternToken>,
    path: Seq<u8>,
    print_file_name: bool,
    only_matching: bool,
    color_mode: bool,
)
    ensures
        content_report(lines, toks, path, print_file_name, only_matching, color_mode).1 matches Ok(any)
            ==> {
            &&& forall|i: int|
                0 <= i < lines.len() ==> #[trigger] line_report(
                    lines[i],
                    toks,
                    path,
                    print_file_name,
                    only_matching,
                    color_mode,
                ) is Ok
            &&& any <==> exists|i: int|
                0 <= i < lines.len() && #[trigger] line_report(
                    lines[i],
                    toks,
                    path,
                    print_file_name,
                    only_matching,
                    color_mode,
                ) matches Ok((true, _))
        },
    decreases lines.len(),
{
    if lines.len() > 0 {
        let init = lines.drop_last();
        lemma_report_matches_iff_some_line_matches(init, toks, path, print_file_name, only_matching, color_mode);
        let last = line_report(lines.last(), toks, path, print_file_name, only_matching, color_mode);
        if content_report(lines, toks, path, print_file_name, only_matching, color_mode).1 is Ok {
            assert forall|i: int| 0 <= i < lines.len() implies #[trigger] line_report(
                lines[i],
                toks,
                path,
                print_file_name,
                only_matching,
                color_mode,
            ) is Ok by {
                if i < lines.len() - 1 {
                    assert(lines[i] == init[i]);
                }
            }
            if let Ok((true, _)) = last {
                assert(lines[lines.len() - 1] == lines.last());
            }
            if exists|i: int|
                0 <= i < lines.len() && #[trigger] line_report(
                    lines[i],
                    toks,
                    path,
                    print_file_name,
                    only_matching,
                    color_mode,
                ) matches Ok((true, _)) {
                let i = choose|i: int|
                    0 <= i < lines.len() && #[trigger] line_report(
                        lines[i],
                        toks,
                        path,
                        print_file_name,
                        only_matching,
                        color_mode,
                    ) matches Ok((true, _));
                if i < lines.len() - 1 {
                    assert(lines[i] == init[i]);
                }
            }
        }
    }
}

/// The match flag of one line's report, in every mode, is whether the pattern
/// matches the line.
proof fn lemma_line_report_flag(
    line: Seq<u8>,
    toks: Seq<PatternToken>,
    path: Seq<u8>,
    print_file_name: bool,
    only_matching: bool,
    color_mode: bool,
)
    requires
        line.len() <= usize::MAX,
    ensures
        line_report(line, toks, path, print_file_name, only_matching, color_mode) matches Ok((m, _))
            ==> (m <==> search_from(line, toks, 0) == Ok::<bool, usize>(true)),
{
    lemma_has_match_agrees_with_search(line, toks, 0);
}

/// A search of lines that ends without error reports a match, in every mode,
/// exactly when the pattern matches one of the lines.
pub proof fn lemma_content_matches_iff_pattern_matches_a_line(
    lines: Seq<Seq<u8>>,
    toks: Seq<PatternToken>,
    path: Seq<u8>,
    print_file_name: bool,
    only_matching: bool,
    color_mode: bool,
)
    requires
        forall|i: int| 0 <= i < lines.len() ==> (#[trigger] lines[i]).len() <= usize::MAX,
    ensures
        content_report(lines, toks, path, print_file_name, only_matching, color_mode).1 matches Ok(any)
            ==> (any <==> exists|i: int|
            0 <= i < lines.len() && search_from(#[trigger] lines[i], toks, 0) == Ok::<bool, usize>(true)),
{
    lemma_report_matches_iff_some_line_matches(lines, toks, path, print_file_name, only_matching, color_mode);
    if content_report(lines, toks, path, print_file_name, only_matching, color_mode).1 is Ok {
        assert forall|i: int| 0 <= i < lines.len() implies (line_report(
            lines[i],
            toks,
            path,
            print_file_name,
            only_matching,
            color_mode,
        ) matches Ok((true, _))) == (search_from(lines[i], toks, 0) == Ok::<bool, usize>(true)) by {
            lemma_line_report_flag(lines[i], toks, path, print_file_name, only_matching, color_mode);
            assert(line_report(lines[i], toks, path, print_file_name, only_matching, color_mode) is Ok);
        }
    }
}

/// With `-o`, the output for a line is one line per non-empty match, holding
/// the prefix and only the matched text, whatever the color mode: without color
/// exactly that, and with color the same once the highlight sequences are taken
/// out; both modes agree on the error and on whether the line matched.
pub proof fn lemma_only_matching_writes_the_matches(
    line: Seq<u8>,
    toks: Seq<PatternToken>,
    path: Seq<u8>,
    print_file_name: bool,
)
    requires
        no_escape(line),
        no_escape(path),
        line.len() <= usize::MAX,
    ensures
        match scan_matches(line, toks, 0, false) {
            Err(n) => line_report(line, toks, path, print_file_name, true, false) == Err::<
                (bool, Seq<u8>),
                PatternError,
            >(PatternError::InvalidBackreference(n)) && line_report(line, toks, path, print_file_name, true, true)
                == Err::<(bool, Seq<u8>), PatternError>(PatternError::InvalidBackreference(n)),
            Ok((h, ranges)) => {
                let lines = ranges.map_values(
                    |r: (usize, usize)| prefix_text(path, print_file_name) + line.subrange(r.0 as int, r.1 as int),
                );
                &&& line_report(line, toks, path, print_file_name, true, false) == Ok::<
                    (bool, Seq<u8>),
                    PatternError,
                >((h, join_lines(lines)))
                &&& line_report(line, toks, path, print_file_name, true, true) matches Ok((h2, text)) && h2 == h
                    && without_highlights(text) == join_lines(lines)
            },
        },
{
    let prefix = prefix_text(path, print_file_name);
    lemma_scan_ranges(line, toks, 0, false);
    if let Ok((h, ranges)) = scan_matches(line, toks, 0, false) {
        lemma_matched_parts_are_lines(line, ranges, prefix);
        assert(no_escape(prefix)) by {
            if print_file_name {
                assert forall|i: int| 0 <= i < prefix.len() implies prefix[i] != ESCAPE by {
                    if i < path.len() {
                        assert(prefix[i] == path[i]);
                    }
                }
            }
        }
        assert forall|i: int| 0 <= i < ranges.len() implies (#[trigger] ranges[i]).0 <= ranges[i].1 <= line.len() by {
            assert(0 <= ranges[i].0 < ranges[i].1 <= line.len());
        }
        lemma_colored_matched_parts(line, ranges, prefix, Seq::empty());
        assert(matched_parts_text(line, ranges, prefix, true) + Seq::<u8>::empty() =~= matched_parts_text(
            line,
            ranges,
            prefix,
            true,
        ));
        assert(matched_parts_text(line, ranges, prefix, false) + without_highlights(Seq::<u8>::empty())
            =~= matched_parts_text(line, ranges, prefix, false));
    }
}

/// Without `-o`, color changes only the highlights: where the colored search of
/// a line ends without error, the plain search does too, both agree on whether
/// the line matched, and taking the highlight sequences out of the colored
/// output gives the plain output, which is the whole line after its prefix.
pub proof fn lemma_color_keeps_the_written_line(
    line: Seq<u8>,
    toks: Seq<PatternToken>,
    path: Seq<u8>,
    print_file_name: bool,
)
    requires
        no_escape(line),
        no_escape(path),
        line.len() <= usize::MAX,
    ensures
        line_report(line, toks, path, print_file_name, false, true) matches Ok((h, text)) ==> line_report(
            line,
            toks,
            path,
            print_file_name,
            false,
            false,
        ) == Ok::<(bool, Seq<u8>), PatternError>((h, without_highlights(text))),
        line_report(line, toks, path, print_file_name, false, false) matches Ok((m, text)) ==> text == (if m {
            (prefix_text(path, print_file_name) + line).push(NEWLINE)
        } else {
            Seq::<u8>::empty()
        }),
{
    let prefix = prefix_text(path, print_file_name);
    lemma_scan_ranges(line, toks, 0, false);
    lemma_has_match_agrees_with_search(line, toks, 0);
    if let Ok((h, ranges)) = scan_matches(line, toks, 0, false) {
        if h {
            assert(ranges_in_order(line.len() as int, ranges)) by {
                assert forall|i: int| 0 <= i < ranges.len() implies (#[trigger] ranges[i]).0 <= ranges[i].1
                    <= line.len() by {
                    assert(0 <= ranges[i].0 < ranges[i].1 <= line.len());
                }
            }
            let nl = seq![NEWLINE];
            lemma_colored_text_keeps_the_line(line, ranges, nl);
            assert(no_escape(nl));
            lemma_without_highlights_clean(nl, Seq::empty());
            assert(nl + Seq::<u8>::empty() =~= nl);
            assert(without_highlights(Seq::<u8>::empty()) =~= Seq::<u8>::empty());
            let colored = (prefix + colored_text(line, ranges)).push(NEWLINE);
            assert(no_escape(prefix)) by {
                if print_file_name {
                    assert forall|i: int| 0 <= i < prefix.len() implies prefix[i] != ESCAPE by {
                        if i < path.len() {
                            assert(prefix[i] == path[i]);
                        }
                    }
                }
            }
            {
                assert(colored =~= prefix + (colored_text(line, ranges) + nl));
                lemma_without_highlights_clean(prefix, colored_text(line, ranges) + nl);
                assert(prefix + (line + nl) =~= (prefix + line).push(NEWLINE));
            }
        } else {
            assert(without_highlights(Seq::<u8>::empty()) =~= Seq::<u8>::empty());
        }
    }
}

} // verus!
