//! The scanner: from text to tokens.
use vstd::prelude::*;
use vstd::string::StrSliceExecFns;
use crate::token::{HeadingLevel, Token, TokenModel, level_of, tokens_view};

verus! {

/// The number of times `c` repeats at the start of `s`.
pub open spec fn lead_count(s: Seq<char>, c: char) -> nat
    decreases s.len(),
{
    if s.len() > 0 && s[0] == c {
        1 + lead_count(s.drop_first(), c)
    } else {
        0
    }
}

/// The number of characters before the first line feed of `s` (all of `s`
/// where it holds none).
pub open spec fn line_len(s: Seq<char>) -> nat
    decreases s.len(),
{
    if s.len() == 0 || s[0] == '\n' {
        0
    } else {
        1 + line_len(s.drop_first())
    }
}

/// A line without the carriage return that ends it, if any.
pub open spec fn strip_cr(line: Seq<char>) -> Seq<char> {
    if line.len() > 0 && line.last() == '\r' {
        line.drop_last()
    } else {
        line
    }
}

/// The lines of `s`: split at each `\n` (a `\r` before it goes with it); a
/// final line ending is optional and starts no further line.
pub open spec fn lines(s: Seq<char>) -> Seq<Seq<char>>
    decreases s.len(),
{
    if s.len() == 0 {
        seq![]
    } else {
        let n = line_len(s);
        if n >= s.len() {
            seq![s]
        } else {
            seq![strip_cr(s.take(n as int))] + lines(s.skip((n + 1) as int))
        }
    }
}

/// `s` holds two `*` characters at its start.
pub open spec fn starts_with_marker(s: Seq<char>) -> bool {
    s.len() >= 2 && s[0] == '*' && s[1] == '*'
}

/// A `Text` token for `buf`, or nothing where `buf` is empty.
pub open spec fn flush(buf: Seq<char>) -> Seq<TokenModel> {
    if buf.len() > 0 {
        seq![TokenModel::Text(buf)]
    } else {
        seq![]
    }
}

/// The tokens of the rest `rest` of a line that holds no heading, where
/// `bold` says whether a `**` span is open and `buf` holds the text read
/// since the last marker.
///
/// A `**` opens a span where none is open, after the pending text is put out,
/// and otherwise closes it, putting out its text as `Bold`. Any other character
/// is text. At the end of the line an open span is put out as text, its
/// opening marker included.
pub open spec fn inline_tokens(rest: Seq<char>, bold: bool, buf: Seq<char>) -> Seq<TokenModel>
    decreases rest.len(),
{
    if rest.len() == 0 {
        if bold {
            seq![TokenModel::Text(seq!['*', '*'] + buf)]
        } else {
            flush(buf)
        }
    } else if starts_with_marker(rest) {
        if bold {
            seq![TokenModel::Bold(buf)] + inline_tokens(rest.skip(2), false, seq![])
        } else {
            flush(buf) + inline_tokens(rest.skip(2), true, seq![])
        }
    } else {
        inline_tokens(rest.drop_first(), bold, buf.push(rest[0]))
    }
}

/// The heading that a line starting with `#` gives: the level of its `#` run
/// and what follows that run and the spaces after it.
pub open spec fn heading_of(line: Seq<char>) -> TokenModel {
    let n = lead_count(line, '#');
    let rest = line.skip(n as int);
    TokenModel::Heading(level_of(n), rest.skip(lead_count(rest, ' ') as int))
}

/// The tokens of one line.
pub open spec fn line_tokens(line: Seq<char>) -> Seq<TokenModel> {
    if line.len() > 0 && line[0] == '#' {
        seq![heading_of(line)]
    } else {
        inline_tokens(line, false, seq![])
    }
}

/// The line break token.
pub open spec fn newline() -> TokenModel {
    TokenModel::Text(seq!['\n'])
}

/// The tokens of a sequence of lines, with a line break token between two
/// lines and none after the last.
pub open spec fn join_lines(ls: Seq<Seq<char>>) -> Seq<TokenModel>
    decreases ls.len(),
{
    if ls.len() == 0 {
        seq![]
    } else if ls.len() == 1 {
        line_tokens(ls[0])
    } else {
        join_lines(ls.drop_last()) + seq![newline()] + line_tokens(ls.last())
    }
}

/// The tokens of a text.
pub open spec fn scan(s: Seq<char>) -> Seq<TokenModel> {
    join_lines(lines(s))
}

/// The characters of `s`, in order.
fn chars_of(s: &str) -> (r: Vec<char>)
    ensures
        r@ == s@,
{
    let mut r: Vec<char> = Vec::new();
    for c in it: s.chars()
        invariant
            r@ == it.seq().take(it.index() as int),
    {
        r.push(c);
    }
    r
}

/// Appends `t` to `out`.
fn push_token(out: &mut Vec<Token>, t: Token)
    ensures
        tokens_view(final(out)@) == tokens_view(old(out)@).push(t@),
{
    out.push(t);
    proof {
        assert(tokens_view(out@) =~= tokens_view(old(out)@).push(t@));
    }
}

/// The characters of `s` from index `from` up to `to`, as a string.
fn text_between(s: &str, from: usize, to: usize) -> (r: String)
    requires
        from <= to <= s@.len(),
    ensures
        r@ == s@.subrange(from as int, to as int),
{
    s.substring_char(from, to).to_owned()
}

/// Appends the tokens of the line `c[start..end]` of `s` to `out`.
fn scan_line(s: &str, c: &Vec<char>, start: usize, end: usize, out: &mut Vec<Token>)
    requires
        c@ == s@,
        start <= end <= c.len(),
    ensures
        tokens_view(final(out)@) == tokens_view(old(out)@) + line_tokens(
            c@.subrange(start as int, end as int),
        ),
{
    let ghost line = c@.subrange(start as int, end as int);
    if start < end && c[start] == '#' {
        let mut i: usize = start;
        while i < end && c[i] == '#'
            invariant
                start <= i <= end <= c.len(),
                lead_count(line, '#') == (i - start) + lead_count(
                    c@.subrange(i as int, end as int),
                    '#',
                ),
            decreases end - i,
        {
            assert(c@.subrange(i as int, end as int).drop_first() =~= c@.subrange(
                i + 1,
                end as int,
            ));
            i = i + 1;
        }
        let mut j: usize = i;
        while j < end && c[j] == ' '
            invariant
                i <= j <= end <= c.len(),
                lead_count(c@.subrange(i as int, end as int), ' ') == (j - i) + lead_count(
                    c@.subrange(j as int, end as int),
                    ' ',
                ),
            decreases end - j,
        {
            assert(c@.subrange(j as int, end as int).drop_first() =~= c@.subrange(
                j + 1,
                end as int,
            ));
            j = j + 1;
        }
        let text = text_between(s, j, end);
        let level = HeadingLevel::from_count(i - start);
        proof {
            let rest = line.skip(i - start);
            assert(rest =~= c@.subrange(i as int, end as int));
            assert(rest.skip(j - i) =~= c@.subrange(j as int, end as int));
        }
        push_token(out, Token::Heading(level, text));
        proof {
            assert(tokens_view(out@) =~= tokens_view(old(out)@) + line_tokens(line));
        }
    } else {
        let mut i: usize = start;
        let mut b: usize = start;
        let mut bold: bool = false;
        proof {
            assert(c@.subrange(start as int, end as int) =~= line);
            assert(c@.subrange(start as int, start as int) =~= Seq::<char>::empty());
        }
        while i < end
            invariant
                c@ == s@,
                start <= b <= i <= end <= c.len(),
                line == c@.subrange(start as int, end as int),
                !(line.len() > 0 && line[0] == '#'),
                bold ==> b >= start + 2 && c@[b - 2] == '*' && c@[b - 1] == '*',
                tokens_view(out@) + inline_tokens(
                    c@.subrange(i as int, end as int),
                    bold,
                    c@.subrange(b as int, i as int),
                ) == tokens_view(old(out)@) + inline_tokens(line, false, seq![]),
            decreases end - i,
        {
            let ghost rest = c@.subrange(i as int, end as int);
            let ghost buf = c@.subrange(b as int, i as int);
            let ghost before = tokens_view(out@);
            if i + 1 < end && c[i] == '*' && c[i + 1] == '*' {
                assert(rest.skip(2) =~= c@.subrange(i + 2, end as int));
                if bold {
                    let text = text_between(s, b, i);
                    push_token(out, Token::Bold(text));
                } else if i > b {
                    let text = text_between(s, b, i);
                    push_token(out, Token::Text(text));
                }
                bold = !bold;
                i = i + 2;
                b = i;
                assert(c@.subrange(b as int, i as int) =~= Seq::<char>::empty());
                assert(tokens_view(out@) =~= before + (if !bold {
                    seq![TokenModel::Bold(buf)]
                } else {
                    flush(buf)
                }));
            } else {
                assert(rest.drop_first() =~= c@.subrange(i + 1, end as int));
                assert(buf.push(rest[0]) =~= c@.subrange(b as int, i + 1));
                i = i + 1;
            }
        }
        let ghost buf = c@.subrange(b as int, end as int);
        let ghost before = tokens_view(out@);
        if bold {
            let text = text_between(s, b - 2, end);
            assert(text@ =~= seq!['*', '*'] + buf);
            push_token(out, Token::Text(text));
        } else if end > b {
            let text = text_between(s, b, end);
            push_token(out, Token::Text(text));
        }
        proof {
            assert(c@.subrange(end as int, end as int) =~= Seq::<char>::empty());
            if bold {
                assert(tokens_view(out@) =~= before + seq![TokenModel::Text(seq!['*', '*'] + buf)]);
            } else {
                assert(tokens_view(out@) =~= before + flush(buf));
            }
        }
    }
}

/// The tokens of `input`: each line scanned on its own, with a
/// `Text("\n")` token between two lines and none after the last.
pub fn tokenize(input: &str) -> (r: Vec<Token>)
    ensures
        tokens_view(r@) == scan(input@),
{
    let c = chars_of(input);
    let mut out: Vec<Token> = Vec::new();
    let mut pos: usize = 0;
    let ghost mut done: Seq<Seq<char>> = seq![];
    proof {
        assert(c@.skip(0) =~= c@);
        assert(tokens_view(out@) =~= Seq::<TokenModel>::empty());
        assert(done + lines(c@) =~= lines(c@));
    }
    while pos < c.len()
        invariant
            c@ == input@,
            pos <= c.len(),
            done + lines(c@.skip(pos as int)) == lines(c@),
            tokens_view(out@) == join_lines(done),
            (pos > 0) == (done.len() > 0),
        decreases c.len() - pos,
    {
        let ghost t = c@.skip(pos as int);
        let mut j: usize = pos;
        while j < c.len() && c[j] != '\n'
            invariant
                pos <= j <= c.len(),
                t == c@.skip(pos as int),
                line_len(t) == (j - pos) + line_len(c@.skip(j as int)),
            decreases c.len() - j,
        {
            assert(c@.skip(j as int).drop_first() =~= c@.skip(j + 1));
            j = j + 1;
        }
        let end: usize = if j < c.len() && j > pos && c[j - 1] == '\r' {
            j - 1
        } else {
            j
        };
        let ghost line = c@.subrange(pos as int, end as int);
        let ghost prev = done;
        if pos > 0 {
            proof {
                reveal_strlit("\n");
            }
            let nl = "\n".to_owned();
            assert(nl@ =~= seq!['\n']);
            push_token(&mut out, Token::Text(nl));
        }
        let ghost mid = tokens_view(out@);
        assert(pos > 0 ==> mid == join_lines(prev) + seq![newline()]);
        assert(pos == 0 ==> mid == Seq::<TokenModel>::empty());
        scan_line(input, &c, pos, end, &mut out);
        let next: usize = if j < c.len() {
            j + 1
        } else {
            j
        };
        proof {
            done = done.push(line);
            assert(done.drop_last() =~= prev);
            if j < c.len() {
                assert(t.take(j - pos) =~= c@.subrange(pos as int, j as int));
                assert(strip_cr(t.take(j - pos)) =~= line);
                assert(t.skip(j - pos + 1) =~= c@.skip(next as int));
                assert(lines(t) =~= seq![line] + lines(c@.skip(next as int)));
            } else {
                assert(t =~= line);
                assert(c@.skip(next as int) =~= Seq::<char>::empty());
                assert(lines(t) =~= seq![line] + lines(c@.skip(next as int)));
            }
            assert(done + lines(c@.skip(next as int)) =~= prev + lines(t));
            if prev.len() > 0 {
                assert(tokens_view(out@) =~= join_lines(prev) + seq![newline()] + line_tokens(
                    line,
                ));
            } else {
                assert(tokens_view(out@) =~= line_tokens(line));
            }
        }
        pos = next;
    }
    proof {
        assert(c@.skip(pos as int) =~= Seq::<char>::empty());
        assert(done =~= lines(c@));
    }
    out
}

/// `s` holds no character `c`.
pub open spec fn lacks(s: Seq<char>, c: char) -> bool {
    forall|i: int| 0 <= i < s.len() ==> s[i] != c
}

proof fn lemma_lead_count_append(p: Seq<char>, r: Seq<char>, c: char)
    requires
        forall|i: int| 0 <= i < p.len() ==> p[i] == c,
    ensures
        lead_count(p + r, c) == p.len() + lead_count(r, c),
    decreases p.len(),
{
    if p.len() == 0 {
        assert(p + r =~= r);
    } else {
        assert((p + r).drop_first() =~= p.drop_first() + r);
        lemma_lead_count_append(p.drop_first(), r, c);
    }
}

proof fn lemma_line_len_append(p: Seq<char>, r: Seq<char>)
    requires
        lacks(p, '\n'),
    ensures
        line_len(p + r) == p.len() + line_len(r),
    decreases p.len(),
{
    if p.len() == 0 {
        assert(p + r =~= r);
    } else {
        assert((p + r).drop_first() =~= p.drop_first() + r);
        lemma_line_len_append(p.drop_first(), r);
    }
}

/// A text without a line feed scans as one line.
proof fn lemma_scan_one_line(s: Seq<char>)
    requires
        lacks(s, '\n'),
    ensures
        scan(s) == line_tokens(s),
{
    lemma_line_len_append(s, seq![]);
    assert(s + seq![] =~= s);
    if s.len() == 0 {
        assert(line_tokens(s) =~= Seq::<TokenModel>::empty());
    }
}

proof fn lemma_inline_plain(p: Seq<char>, r: Seq<char>, bold: bool, buf: Seq<char>)
    requires
        lacks(p, '*'),
    ensures
        inline_tokens(p + r, bold, buf) == inline_tokens(r, bold, buf + p),
    decreases p.len(),
{
    if p.len() == 0 {
        assert(p + r =~= r);
        assert(buf + p =~= buf);
    } else {
        assert((p + r)[0] == p[0]);
        assert((p + r).drop_first() =~= p.drop_first() + r);
        assert(buf.push(p[0]) + p.drop_first() =~= buf + p);
        lemma_inline_plain(p.drop_first(), r, bold, buf.push(p[0]));
    }
}

/// A line of `n >= 1` `#` characters, a space and a text that starts with
/// no space is one heading of level `n` (six and above giving H6) whose text
/// is that text.
pub proof fn lemma_heading_line(n: nat, text: Seq<char>)
    requires
        n >= 1,
        lacks(text, '\n'),
        text.len() == 0 || text[0] != ' ',
    ensures
        scan(Seq::new(n, |i: int| '#') + seq![' '] + text) == seq![
            TokenModel::Heading(level_of(n), text),
        ],
{
    let hashes = Seq::new(n, |i: int| '#');
    let rest = seq![' '] + text;
    let line = hashes + seq![' '] + text;
    assert(line =~= hashes + rest);
    assert(lacks(line, '\n')) by {
        assert forall|i: int| 0 <= i < line.len() implies line[i] != '\n' by {
            if i > n {
                assert(line[i] == text[i - n - 1]);
            }
        }
    }
    lemma_scan_one_line(line);
    lemma_lead_count_append(hashes, rest, '#');
    assert(line.skip(n as int) =~= rest);
    assert(rest.drop_first() =~= text);
    assert(lead_count(text, ' ') == 0);
    assert(rest[0] == ' ');
    assert(lead_count(rest, ' ') == 1);
    assert(rest.skip(1) =~= text);
}

/// Two lines scanned together, joined by a line feed, give the tokens of
/// the first, one line break token, and the tokens of the second. The
/// second line is not empty (a final line ending starts no line) and the
/// first does not end in a carriage return (which would go with the line
/// feed).
pub proof fn lemma_scan_two_lines(a: Seq<char>, b: Seq<char>)
    requires
        lacks(a, '\n'),
        lacks(b, '\n'),
        b.len() > 0,
        a.len() == 0 || a.last() != '\r',
    ensures
        scan(a + seq!['\n'] + b) == scan(a) + seq![newline()] + scan(b),
{
    let s = a + seq!['\n'] + b;
    lemma_line_len_append(a, seq!['\n'] + b);
    assert(s =~= a + (seq!['\n'] + b));
    assert(s.take(a.len() as int) =~= a);
    assert(s.skip((a.len() + 1) as int) =~= b);
    lemma_line_len_append(b, seq![]);
    assert(b + seq![] =~= b);
    assert(lines(b) =~= seq![b]);
    let nb = seq!['\n'] + b;
    assert(nb[0] == '\n');
    assert(line_len(nb) == 0);
    assert(line_len(s) == a.len());
    assert(strip_cr(a) == a);
    assert(lines(s) =~= seq![a, b]);
    assert(seq![a, b].drop_last() =~= seq![a]);
    assert(join_lines(seq![a]) == line_tokens(a));
    assert(join_lines(seq![a, b]) == join_lines(seq![a]) + seq![newline()] + line_tokens(b));
    lemma_scan_one_line(a);
    lemma_scan_one_line(b);
}

/// Between a pair of `**` markers, a text without `*` or line feed is taken
/// as it stands, a leading `#` included: the line is one bold token.
pub proof fn lemma_bold_is_literal(text: Seq<char>)
    requires
        lacks(text, '*'),
        lacks(text, '\n'),
    ensures
        scan(seq!['*', '*'] + text + seq!['*', '*']) == seq![TokenModel::Bold(text)],
{
    let line = seq!['*', '*'] + text + seq!['*', '*'];
    assert(lacks(line, '\n')) by {
        assert forall|i: int| 0 <= i < line.len() implies line[i] != '\n' by {
            if 2 <= i < text.len() + 2 {
                assert(line[i] == text[i - 2]);
            }
        }
    }
    lemma_scan_one_line(line);
    assert(line.skip(2) =~= text + seq!['*', '*']);
    lemma_inline_plain(text, seq!['*', '*'], true, seq![]);
    assert(seq![] + text =~= text);
    let close = seq!['*', '*'];
    assert(close.skip(2) =~= Seq::<char>::empty());
    assert(flush(seq![]) =~= Seq::<TokenModel>::empty());
    assert(starts_with_marker(close));
    assert(inline_tokens(Seq::<char>::empty(), false, seq![]) =~= Seq::<TokenModel>::empty());
    assert(inline_tokens(close, true, text) =~= seq![TokenModel::Bold(text)]);
}

} // verus!
