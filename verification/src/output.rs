use vstd::prelude::*;
use vstd::string::StringSliceAdditionalSpecFns;
use vstd::utf8::*;
use crate::pattern::error::PatternError;
use crate::pattern::matcher::{
    match_all_patterns, match_pattern, ranges_are_matches, scan_matches, search_from, tokens_wf,
    CompiledPattern, PatternToken,
};

verus! {

broadcast use vstd::string::group_string_axioms;

/// The byte `\n`.
pub const NEWLINE: u8 = 10;

/// The byte `:`.
pub const COLON: u8 = 58;

/// The terminal sequence that starts a highlight: bold red (`ESC [ 0 1 ; 3 1 m`).
pub open spec fn highlight_start() -> Seq<u8> {
    seq![27u8, 91u8, 48u8, 49u8, 59u8, 51u8, 49u8, 109u8]
}

/// The terminal sequence that ends a highlight (`ESC [ m`).
pub open spec fn highlight_end() -> Seq<u8> {
    seq![27u8, 91u8, 109u8]
}

/// `text` between the two highlight sequences.
pub open spec fn highlighted(text: Seq<u8>) -> Seq<u8> {
    highlight_start() + text + highlight_end()
}

/// What starts each line written for a file: its name and a colon, where file
/// names are shown.
pub open spec fn prefix_text(path: Seq<u8>, print_file_name: bool) -> Seq<u8> {
    if print_file_name {
        path.push(COLON)
    } else {
        Seq::empty()
    }
}

/// Where the last of the ranges ends, or 0 when there is none.
pub open spec fn end_of_last(ranges: Seq<(usize, usize)>) -> int {
    if ranges.len() == 0 {
        0
    } else {
        ranges.last().1 as int
    }
}

/// The line up to the end of its last range, each range highlighted.
pub open spec fn colored_body(line: Seq<u8>, ranges: Seq<(usize, usize)>) -> Seq<u8>
    decreases ranges.len(),
{
    if ranges.len() == 0 {
        Seq::empty()
    } else {
        let prev = ranges.drop_last();
        let r = ranges.last();
        colored_body(line, prev) + line.subrange(end_of_last(prev), r.0 as int) + highlighted(
            line.subrange(r.0 as int, r.1 as int),
        )
    }
}

/// The whole line with each range highlighted.
pub open spec fn colored_text(line: Seq<u8>, ranges: Seq<(usize, usize)>) -> Seq<u8> {
    colored_body(line, ranges) + line.subrange(end_of_last(ranges), line.len() as int)
}

/// One written line per range: the prefix, then the matched text, highlighted
/// where `color` is set.
pub open spec fn matched_parts_text(
    line: Seq<u8>,
    ranges: Seq<(usize, usize)>,
    prefix: Seq<u8>,
    color: bool,
) -> Seq<u8>
    decreases ranges.len(),
{
    if ranges.len() == 0 {
        Seq::empty()
    } else {
        let r = ranges.last();
        let part = line.subrange(r.0 as int, r.1 as int);
        matched_parts_text(line, ranges.drop_last(), prefix, color) + prefix + (if color {
            highlighted(part)
        } else {
            part
        }).push(NEWLINE)
    }
}

/// Whether each range starts and ends between characters of the line's UTF-8
/// encoding, so that its text can be cut out as a string.
pub open spec fn ranges_on_char_boundaries(line: Seq<u8>, ranges: Seq<(usize, usize)>) -> bool {
    forall|i: int|
        0 <= i < ranges.len() ==> is_char_boundary(line, (#[trigger] ranges[i]).0 as int)
            && is_char_boundary(line, ranges[i].1 as int)
}

/// Whether the matches found in a line cut no character in two.
pub open spec fn matches_cut_no_char(line: Seq<u8>, toks: Seq<PatternToken>) -> bool {
    scan_matches(line, toks, 0, false) matches Ok((_, ranges)) ==> ranges_on_char_boundaries(
        line,
        ranges,
    )
}

/// Appends `src[from..to]` to `out`.
fn append_bytes(out: &mut Vec<u8>, src: &[u8], from: usize, to: usize)
    requires
        from <= to <= src@.len(),
    ensures
        final(out)@ == old(out)@ + src@.subrange(from as int, to as int),
{
    let ghost start = out@;
    let mut i = from;
    while i < to
        invariant
            from <= i <= to <= src@.len(),
            out@ == start + src@.subrange(from as int, i as int),
        decreases to - i,
    {
        out.push(src[i]);
        assert(src@.subrange(from as int, i + 1) =~= src@.subrange(from as int, i as int).push(src@[i as int]));
        i += 1;
    }
}

/// Appends the sequence that starts a highlight.
fn append_highlight_start(out: &mut Vec<u8>)
    ensures
        final(out)@ == old(out)@ + highlight_start(),
{
    let ghost start = out@;
    out.push(27);
    out.push(91);
    out.push(48);
    out.push(49);
    out.push(59);
    out.push(51);
    out.push(49);
    out.push(109);
    assert(out@ =~= start + highlight_start());
}

/// Appends the sequence that ends a highlight.
fn append_highlight_end(out: &mut Vec<u8>)
    ensures
        final(out)@ == old(out)@ + highlight_end(),
{
    let ghost start = out@;
    out.push(27);
    out.push(91);
    out.push(109);
    assert(out@ =~= start + highlight_end());
}

/// Appends `src[from..to]` between the highlight sequences.
fn append_highlighted(out: &mut Vec<u8>, src: &[u8], from: usize, to: usize)
    requires
        from <= to <= src@.len(),
    ensures
        final(out)@ == old(out)@ + highlighted(src@.subrange(from as int, to as int)),
{
    let ghost start = out@;
    append_highlight_start(out);
    append_bytes(out, src, from, to);
    append_highlight_end(out);
    assert(out@ =~= start + highlighted(src@.subrange(from as int, to as int)));
}

/// Appends the name of the file and a colon, where file names are shown.
pub fn render_prefix(file_path: &str, print_file_name: bool, out: &mut Vec<u8>)
    ensures
        final(out)@ == old(out)@ + prefix_text(file_path.spec_bytes(), print_file_name),
{
    if print_file_name {
        let path = file_path.as_bytes();
        let ghost start = out@;
        append_bytes(out, path, 0, path.len());
        out.push(COLON);
        assert(path@.subrange(0, path@.len() as int) =~= path@);
        assert(out@ =~= start + prefix_text(file_path.spec_bytes(), print_file_name));
    } else {
        assert(out@ =~= out@ + Seq::<u8>::empty());
    }
}

/// Writes a line that the pattern matches somewhere, after its prefix: appends
/// the text to `out` and tells whether the line matched. On a line that does not
/// match, or on an error, nothing is appended.
pub fn render_result(
    input_line: &str,
    compiled_pattern: &CompiledPattern,
    file_path: &str,
    print_file_name: bool,
    out: &mut Vec<u8>,
) -> (r: Result<bool, PatternError>)
    requires
        tokens_wf(compiled_pattern.tokens@),
    ensures
        match search_from(input_line.spec_bytes(), compiled_pattern.tokens@, 0) {
            Err(n) => r == Err::<bool, PatternError>(PatternError::InvalidBackreference(n))
                && final(out)@ == old(out)@,
            Ok(b) => r == Ok::<bool, PatternError>(b) && final(out)@ == old(out)@ + (if b {
                (prefix_text(file_path.spec_bytes(), print_file_name) + input_line.spec_bytes()).push(
                    NEWLINE,
                )
            } else {
                Seq::empty()
            }),
        },
{
    let is_match = match compiled_pattern.match_pattern(input_line) {
        Ok(b) => b,
        Err(e) => {
            return Err(e);
        },
    };
    if !is_match {
        assert(out@ =~= out@ + Seq::<u8>::empty());
        return Ok(false);
    }
    let ghost start = out@;
    render_prefix(file_path, print_file_name, out);
    let line = input_line.as_bytes();
    append_bytes(out, line, 0, line.len());
    out.push(NEWLINE);
    assert(line@.subrange(0, line@.len() as int) =~= line@);
    assert(out@ =~= start + (prefix_text(file_path.spec_bytes(), print_file_name)
        + input_line.spec_bytes()).push(NEWLINE));
    Ok(true)
}

/// Writes a line that the pattern matches somewhere, after its prefix, with each
/// non-empty match highlighted: appends the text to `out` and tells whether the
/// line matched (an empty match counts, though nothing is highlighted for it).
/// On a line that does not match, or on an error, nothing is appended.
pub fn render_colored_results(
    input_line: &str,
    compiled_pattern: &CompiledPattern,
    file_path: &str,
    print_file_name: bool,
    out: &mut Vec<u8>,
) -> (r: Result<bool, PatternError>)
    requires
        tokens_wf(compiled_pattern.tokens@),
        input_line.spec_bytes().len() < usize::MAX,
        matches_cut_no_char(input_line.spec_bytes(), compiled_pattern.tokens@),
    ensures
        match scan_matches(input_line.spec_bytes(), compiled_pattern.tokens@, 0, false) {
            Err(n) => r == Err::<bool, PatternError>(PatternError::InvalidBackreference(n))
                && final(out)@ == old(out)@,
            Ok((h, ranges)) => r == Ok::<bool, PatternError>(h) && final(out)@ == old(out)@ + (if h {
                (prefix_text(file_path.spec_bytes(), print_file_name) + colored_text(
                    input_line.spec_bytes(),
                    ranges,
                )).push(NEWLINE)
            } else {
                Seq::empty()
            }),
        },
{
    let pattern_matches = match compiled_pattern.match_all_patterns(input_line) {
        Ok(m) => m,
        Err(e) => {
            return Err(e);
        },
    };
    if !pattern_matches.has_match {
        assert(out@ =~= out@ + Seq::<u8>::empty());
        return Ok(false);
    }
    let ghost toks = compiled_pattern.tokens@;
    let line = input_line.as_bytes();
    let ranges = &pattern_matches.ranges;
    let ghost start = out@;
    render_prefix(file_path, print_file_name, out);
    let ghost after_prefix = out@;
    let mut last_end: usize = 0;
    let mut k: usize = 0;
    assert(colored_body(line@, ranges@.subrange(0, 0)) =~= Seq::<u8>::empty());
    while k < ranges.len()
        invariant
            ranges_are_matches(line@, toks, ranges@, 0),
            k <= ranges@.len(),
            last_end == end_of_last(ranges@.subrange(0, k as int)),
            last_end <= line@.len(),
            k > 0 ==> last_end == ranges@[k - 1].1,
            out@ == after_prefix + colored_body(line@, ranges@.subrange(0, k as int)),
        decreases ranges@.len() - k,
    {
        let (s, e) = ranges[k];
        proof {
            if k > 0 {
                assert(ranges@[k - 1].1 <= ranges@[k as int].0);
            }
            assert(0 <= ranges@[k as int].0 < ranges@[k as int].1 <= line@.len());
        }
        let ghost before = out@;
        append_bytes(out, line, last_end, s);
        append_highlighted(out, line, s, e);
        proof {
            let pre = ranges@.subrange(0, k + 1);
            assert(pre.drop_last() =~= ranges@.subrange(0, k as int));
            assert(pre.last() == (s, e));
            assert(out@ =~= after_prefix + colored_body(line@, pre));
        }
        last_end = e;
        k += 1;
    }
    assert(ranges@.subrange(0, k as int) =~= ranges@);
    append_bytes(out, line, last_end, line.len());
    out.push(NEWLINE);
    assert(out@ =~= start + (prefix_text(file_path.spec_bytes(), print_file_name) + colored_text(
        line@,
        ranges@,
    )).push(NEWLINE));
    Ok(true)
}

/// Writes each non-empty match of the pattern in the line on a line of its own,
/// after the prefix, highlighted where `color_mode` is set: appends the text to
/// `out` and tells whether the line matched (an empty match counts, though it
/// writes nothing). On an error nothing is appended.
pub fn render_all_results(
    input_line: &str,
    compiled_pattern: &CompiledPattern,
    file_path: &str,
    print_file_name: bool,
    color_mode: bool,
    out: &mut Vec<u8>,
) -> (r: Result<bool, PatternError>)
    requires
        tokens_wf(compiled_pattern.tokens@),
        input_line.spec_bytes().len() < usize::MAX,
        matches_cut_no_char(input_line.spec_bytes(), compiled_pattern.tokens@),
    ensures
        match scan_matches(input_line.spec_bytes(), compiled_pattern.tokens@, 0, false) {
            Err(n) => r == Err::<bool, PatternError>(PatternError::InvalidBackreference(n))
                && final(out)@ == old(out)@,
            Ok((h, ranges)) => r == Ok::<bool, PatternError>(h) && final(out)@ == old(out)@
                + matched_parts_text(
                input_line.spec_bytes(),
                ranges,
                prefix_text(file_path.spec_bytes(), print_file_name),
                color_mode,
            ),
        },
{
    let pattern_matches = match compiled_pattern.match_all_patterns(input_line) {
        Ok(m) => m,
        Err(e) => {
            return Err(e);
        },
    };
    let ghost toks = compiled_pattern.tokens@;
    let ghost prefix = prefix_text(file_path.spec_bytes(), print_file_name);
    let line = input_line.as_bytes();
    let ranges = &pattern_matches.ranges;
    let ghost start = out@;
    let mut k: usize = 0;
    assert(matched_parts_text(line@, ranges@.subrange(0, 0), prefix, color_mode) =~= Seq::<u8>::empty());
    assert(out@ =~= start + Seq::<u8>::empty());
    while k < ranges.len()
        invariant
            ranges_are_matches(line@, toks, ranges@, 0),
            k <= ranges@.len(),
            out@ == start + matched_parts_text(line@, ranges@.subrange(0, k as int), prefix, color_mode),
            prefix == prefix_text(file_path.spec_bytes(), print_file_name),
        decreases ranges@.len() - k,
    {
        let (s, e) = ranges[k];
        proof {
            assert(0 <= ranges@[k as int].0 < ranges@[k as int].1 <= line@.len());
        }
        let ghost before = out@;
        render_prefix(file_path, print_file_name, out);
        let ghost after_prefix = out@;
        if color_mode {
            append_highlighted(out, line, s, e);
        } else {
            append_bytes(out, line, s, e);
        }
        let ghost part = if color_mode {
            highlighted(line@.subrange(s as int, e as int))
        } else {
            line@.subrange(s as int, e as int)
        };
        assert(out@ =~= before + prefix + part);
        out.push(NEWLINE);
        proof {
            let pre = ranges@.subrange(0, k + 1);
            assert(pre.drop_last() =~= ranges@.subrange(0, k as int));
            assert(pre.last() == (s, e));
            assert(matched_parts_text(line@, pre, prefix, color_mode) == matched_parts_text(
                line@,
                ranges@.subrange(0, k as int),
                prefix,
                color_mode,
            ) + prefix + part.push(NEWLINE));
            assert(out@ =~= start + matched_parts_text(line@, pre, prefix, color_mode));
        }
        k += 1;
    }
    assert(ranges@.subrange(0, k as int) =~= ranges@);
    Ok(pattern_matches.has_match)
}

/// The escape byte that starts each highlight sequence.
pub const ESCAPE: u8 = 27;

/// Whether `s` holds no escape byte.
pub open spec fn no_escape(s: Seq<u8>) -> bool {
    forall|i: int| 0 <= i < s.len() ==> s[i] != ESCAPE
}

/// `text` with every highlight start and highlight end sequence taken out,
/// reading from the left.
pub open spec fn without_highlights(text: Seq<u8>) -> Seq<u8>
    decreases text.len(),
{
    if text.len() == 0 {
        Seq::empty()
    } else if text.len() >= 8 && text.subrange(0, 8) == highlight_start() {
        without_highlights(text.subrange(8, text.len() as int))
    } else if text.len() >= 3 && text.subrange(0, 3) == highlight_end() {
        without_highlights(text.subrange(3, text.len() as int))
    } else {
        seq![text[0]] + without_highlights(text.subrange(1, text.len() as int))
    }
}

/// Text with no escape byte passes through unchanged.
pub proof fn lemma_without_highlights_clean(a: Seq<u8>, x: Seq<u8>)
    requires
        no_escape(a),
    ensures
        without_highlights(a + x) == a + without_highlights(x),
    decreases a.len(),
{
    if a.len() == 0 {
        assert(a + x =~= x);
    } else {
        let ax = a + x;
        assert(ax[0] == a[0]);
        assert(a[0] != ESCAPE);
        assert(ax.len() >= 8 ==> ax.subrange(0, 8)[0] != highlight_start()[0]);
        assert(ax.len() >= 3 ==> ax.subrange(0, 3)[0] != highlight_end()[0]);
        let tail = a.subrange(1, a.len() as int);
        assert(ax.subrange(1, ax.len() as int) =~= tail + x);
        lemma_without_highlights_clean(tail, x);
        assert(a =~= seq![a[0]] + tail);
        assert(seq![a[0]] + (tail + without_highlights(x)) =~= a + without_highlights(x));
    }
}

/// A highlighted part with no escape byte loses its highlight sequences.
proof fn lemma_without_highlights_highlighted(part: Seq<u8>, x: Seq<u8>)
    requires
        no_escape(part),
    ensures
        without_highlights(highlighted(part) + x) == part + without_highlights(x),
{
    let hs = highlight_start();
    let he = highlight_end();
    let t = highlighted(part) + x;
    assert(t.subrange(0, 8) =~= hs);
    assert(t.subrange(8, t.len() as int) =~= part + (he + x));
    lemma_without_highlights_clean(part, he + x);
    let u = he + x;
    assert(u.len() >= 8 ==> u.subrange(0, 8)[2] != hs[2]);
    assert(u.subrange(0, 3) =~= he);
    assert(u.subrange(3, u.len() as int) =~= x);
}

/// Match ranges that lie in order inside a line of length `len`: each starts no
/// later than it ends, and each ends no later than the next starts.
pub open spec fn ranges_in_order(len: int, ranges: Seq<(usize, usize)>) -> bool {
    &&& forall|i: int| 0 <= i < ranges.len() ==> (#[trigger] ranges[i]).0 <= ranges[i].1 <= len
    &&& forall|i: int, j: int| 0 <= i < j < ranges.len() ==> (#[trigger] ranges[i]).1 <= (#[trigger] ranges[j]).0
}

/// Taking the highlights out of the highlighted part of a line before its last
/// range gives back that part of the line.
#[verifier::rlimit(60)]
proof fn lemma_colored_body_without_highlights(line: Seq<u8>, ranges: Seq<(usize, usize)>, x: Seq<u8>)
    requires
        no_escape(line),
        ranges_in_order(line.len() as int, ranges),
    ensures
        0 <= end_of_last(ranges) <= line.len(),
        without_highlights(colored_body(line, ranges) + x) == line.subrange(0, end_of_last(ranges))
            + without_highlights(x),
    decreases ranges.len(),
{
    if ranges.len() == 0 {
        assert(colored_body(line, ranges) + x =~= x);
        assert(line.subrange(0, 0) + without_highlights(x) =~= without_highlights(x));
    } else {
        let prev = ranges.drop_last();
        let r = ranges.last();
        assert(r == ranges[ranges.len() - 1]);
        assert(ranges_in_order(line.len() as int, prev)) by {
            assert forall|i: int| 0 <= i < prev.len() implies (#[trigger] prev[i]).0 <= prev[i].1 <= line.len() by {
                assert(prev[i] == ranges[i]);
            }
            assert forall|i: int, j: int| 0 <= i < j < prev.len() implies (#[trigger] prev[i]).1 <= (
            #[trigger] prev[j]).0 by {
                assert(prev[i] == ranges[i]);
                assert(prev[j] == ranges[j]);
            }
        }
        if prev.len() > 0 {
            assert(prev.last() == ranges[prev.len() - 1]);
            assert(ranges[prev.len() - 1].1 <= ranges[ranges.len() - 1].0);
        }
        let e0 = end_of_last(prev);
        let gap = line.subrange(e0, r.0 as int);
        let part = line.subrange(r.0 as int, r.1 as int);
        let rest = gap + highlighted(part) + x;
        assert(colored_body(line, ranges) + x =~= colored_body(line, prev) + rest);
        lemma_colored_body_without_highlights(line, prev, rest);
        assert(no_escape(gap));
        assert(no_escape(part));
        assert(rest =~= gap + (highlighted(part) + x));
        lemma_without_highlights_clean(gap, highlighted(part) + x);
        lemma_without_highlights_highlighted(part, x);
        assert(line.subrange(0, e0) + (gap + (part + without_highlights(x))) =~= line.subrange(
            0,
            r.1 as int,
        ) + without_highlights(x));
    }
}

/// Highlighting keeps the line: taking the highlight sequences out of the
/// colored text of a line with no escape byte gives back the line itself, every
/// byte once and in order, whatever the ranges highlighted (and whatever text
/// `x` follows it).
pub proof fn lemma_colored_text_keeps_the_line(line: Seq<u8>, ranges: Seq<(usize, usize)>, x: Seq<u8>)
    requires
        no_escape(line),
        ranges_in_order(line.len() as int, ranges),
    ensures
        without_highlights(colored_text(line, ranges)) == line,
        without_highlights(colored_text(line, ranges) + x) == line + without_highlights(x),
{
    let tail = line.subrange(end_of_last(ranges), line.len() as int);
    lemma_colored_body_without_highlights(line, ranges, tail + x);
    lemma_colored_body_without_highlights(line, ranges, tail);
    lemma_without_highlights_clean(tail, x);
    lemma_without_highlights_clean(tail, Seq::empty());
    assert(tail + Seq::<u8>::empty() =~= tail);
    assert(without_highlights(Seq::<u8>::empty()) =~= Seq::<u8>::empty());
    assert(colored_text(line, ranges) == colored_body(line, ranges) + tail);
    assert(colored_text(line, ranges) + x =~= colored_body(line, ranges) + (tail + x));
    assert(line.subrange(0, end_of_last(ranges)) + tail =~= line);
    assert(line.subrange(0, end_of_last(ranges)) + (tail + without_highlights(x)) =~= line + without_highlights(
        x,
    ));
}

/// Lines, each followed by a newline, one after the other.
pub open spec fn join_lines(pieces: Seq<Seq<u8>>) -> Seq<u8>
    decreases pieces.len(),
{
    if pieces.len() == 0 {
        Seq::empty()
    } else {
        join_lines(pieces.drop_last()) + pieces.last().push(NEWLINE)
    }
}

/// The matched parts written with `-o` and no color are, line after line, the
/// prefix followed by the text of each range: one line per range, in order.
pub proof fn lemma_matched_parts_are_lines(line: Seq<u8>, ranges: Seq<(usize, usize)>, prefix: Seq<u8>)
    ensures
        matched_parts_text(line, ranges, prefix, false) == join_lines(
            ranges.map_values(|r: (usize, usize)| prefix + line.subrange(r.0 as int, r.1 as int)),
        ),
    decreases ranges.len(),
{
    let pieces = ranges.map_values(|r: (usize, usize)| prefix + line.subrange(r.0 as int, r.1 as int));
    if ranges.len() > 0 {
        lemma_matched_parts_are_lines(line, ranges.drop_last(), prefix);
        assert(pieces.drop_last() =~= ranges.drop_last().map_values(
            |r: (usize, usize)| prefix + line.subrange(r.0 as int, r.1 as int),
        ));
        assert(pieces.last() == prefix + line.subrange(ranges.last().0 as int, ranges.last().1 as int));
        assert((prefix + line.subrange(ranges.last().0 as int, ranges.last().1 as int)).push(NEWLINE)
            =~= prefix + line.subrange(ranges.last().0 as int, ranges.last().1 as int).push(NEWLINE));
    } else {
        assert(pieces =~= Seq::<Seq<u8>>::empty());
    }
}

/// Color changes only the highlights of `-o` output, never the prefixes or the
/// parts: taking the highlight sequences out of the colored matched parts gives
/// the matched parts written without color.
pub proof fn lemma_colored_matched_parts(
    line: Seq<u8>,
    ranges: Seq<(usize, usize)>,
    prefix: Seq<u8>,
    x: Seq<u8>,
)
    requires
        no_escape(line),
        no_escape(prefix),
        forall|i: int| 0 <= i < ranges.len() ==> (#[trigger] ranges[i]).0 <= ranges[i].1 <= line.len(),
    ensures
        without_highlights(matched_parts_text(line, ranges, prefix, true) + x) == matched_parts_text(
            line,
            ranges,
            prefix,
            false,
        ) + without_highlights(x),
    decreases ranges.len(),
{
    if ranges.len() == 0 {
        assert(matched_parts_text(line, ranges, prefix, true) + x =~= x);
        assert(matched_parts_text(line, ranges, prefix, false) + without_highlights(x) =~= without_highlights(
            x,
        ));
    } else {
        let prev = ranges.drop_last();
        let r = ranges.last();
        assert(r == ranges[ranges.len() - 1]);
        assert forall|i: int| 0 <= i < prev.len() implies (#[trigger] prev[i]).0 <= prev[i].1 <= line.len() by {
            assert(prev[i] == ranges[i]);
        }
        let part = line.subrange(r.0 as int, r.1 as int);
        assert(no_escape(part));
        let nl = seq![NEWLINE];
        let rest = prefix + highlighted(part).push(NEWLINE) + x;
        assert(matched_parts_text(line, ranges, prefix, true) + x =~= matched_parts_text(line, prev, prefix, true)
            + rest);
        lemma_colored_matched_parts(line, prev, prefix, rest);
        assert(rest =~= prefix + (highlighted(part) + (nl + x)));
        lemma_without_highlights_clean(prefix, highlighted(part) + (nl + x));
        lemma_without_highlights_highlighted(part, nl + x);
        assert(no_escape(nl));
        lemma_without_highlights_clean(nl, x);
        assert(matched_parts_text(line, prev, prefix, false) + (prefix + (part + (nl + without_highlights(x))))
            =~= matched_parts_text(line, ranges, prefix, false) + without_highlights(x));
    }
}

} // verus!
