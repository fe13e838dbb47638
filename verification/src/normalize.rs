use crate::text::chars_of;
use vstd::prelude::*;

verus! {

/// `String::push` appends one character.
pub assume_specification[ std::string::String::push ](s: &mut std::string::String, ch: char)
    ensures
        final(s)@ == old(s)@.push(ch),
;

/// The characters that Unicode classes as white space.
pub open spec fn spec_is_whitespace(c: char) -> bool {
    let u = c as u32;
    ||| 0x09 <= u <= 0x0d
    ||| u == 0x20
    ||| u == 0x85
    ||| u == 0xa0
    ||| u == 0x1680
    ||| 0x2000 <= u <= 0x200a
    ||| u == 0x2028
    ||| u == 0x2029
    ||| u == 0x202f
    ||| u == 0x205f
    ||| u == 0x3000
}

/// Whether `c` is white space.
pub fn is_whitespace(c: char) -> (r: bool)
    ensures
        r == spec_is_whitespace(c),
{
    let u = c as u32;
    (0x09 <= u && u <= 0x0d) || u == 0x20 || u == 0x85 || u == 0xa0 || u == 0x1680 || (0x2000 <= u
        && u <= 0x200a) || u == 0x2028 || u == 0x2029 || u == 0x202f || u == 0x205f || u == 0x3000
}

/// The characters that indent a line.
pub open spec fn is_indent_char(c: char) -> bool {
    c == ' ' || c == '\t'
}

pub open spec fn is_quote(c: char) -> bool {
    c == '"' || c == '\''
}

/// `s` with a line feed at its end: added when `s` does not end in one.
pub open spec fn spec_normalize_ending_newline(s: Seq<char>) -> Seq<char> {
    if s.len() > 0 && s.last() == '\n' {
        s
    } else {
        s.push('\n')
    }
}

/// The number of indenting characters at the start of `line`.
pub open spec fn leading_len(line: Seq<char>) -> nat
    decreases line.len(),
{
    if line.len() == 0 || !is_indent_char(line[0]) {
        0
    } else {
        1 + leading_len(line.drop_first())
    }
}

/// `content` without the white space that stands outside quotes. A quote
/// character, single or double, opens a quoted stretch and the next one
/// closes it; `in_quotes` says whether `content` starts inside one.
pub open spec fn spec_despace(content: Seq<char>, in_quotes: bool) -> Seq<char>
    decreases content.len(),
{
    if content.len() == 0 {
        Seq::empty()
    } else if is_quote(content[0]) {
        seq![content[0]] + spec_despace(content.drop_first(), !in_quotes)
    } else if spec_is_whitespace(content[0]) && !in_quotes {
        spec_despace(content.drop_first(), in_quotes)
    } else {
        seq![content[0]] + spec_despace(content.drop_first(), in_quotes)
    }
}

/// One line in normal form: its indentation as it stands, then its content
/// without white space outside quotes.
pub open spec fn spec_normalize_line(line: Seq<char>) -> Seq<char> {
    line.take(leading_len(line) as int) + spec_despace(line.skip(leading_len(line) as int), false)
}

/// The number of characters of `s` before its first line feed.
pub open spec fn first_line_len(s: Seq<char>) -> nat
    decreases s.len(),
{
    if s.len() == 0 || s[0] == '\n' {
        0
    } else {
        1 + first_line_len(s.drop_first())
    }
}

/// `line` without the carriage return at its end, if it has one.
pub open spec fn strip_carriage_return(line: Seq<char>) -> Seq<char> {
    if line.len() > 0 && line.last() == '\r' {
        line.drop_last()
    } else {
        line
    }
}

/// The lines of `s` in normal form, each followed by a line feed. A line
/// ends at a line feed; a carriage return just before it belongs to the line
/// ending.
pub open spec fn spec_normalize_lines(s: Seq<char>) -> Seq<char>
    decreases s.len(),
{
    if s.len() == 0 {
        Seq::empty()
    } else if first_line_len(s) >= s.len() {
        spec_normalize_line(strip_carriage_return(s)).push('\n')
    } else {
        spec_normalize_line(strip_carriage_return(s.take(first_line_len(s) as int))).push('\n')
            + spec_normalize_lines(s.skip(first_line_len(s) as int + 1))
    }
}

/// The source in normal form: every line keeps its indentation and loses
/// the white space that stands outside quotes; the lines are joined by line
/// feeds, with none behind the last.
pub open spec fn spec_normalize_source(raw: Seq<char>) -> Seq<char> {
    spec_normalize_lines(spec_normalize_ending_newline(raw)).drop_last()
}

proof fn lemma_first_line_len(s: Seq<char>)
    ensures
        first_line_len(s) <= s.len(),
        forall|i: int| 0 <= i < first_line_len(s) ==> #[trigger] s[i] != '\n',
        first_line_len(s) < s.len() ==> s[first_line_len(s) as int] == '\n',
    decreases s.len(),
{
    if s.len() == 0 || s[0] == '\n' {
    } else {
        lemma_first_line_len(s.drop_first());
        assert forall|i: int| 0 <= i < first_line_len(s) implies #[trigger] s[i] != '\n' by {
            if i > 0 {
                assert(s.drop_first()[i - 1] == s[i]);
            }
        }
    }
}

/// The position of the first line feed of `chars` at or behind `from`, or
/// the length of `chars` when there is none.
fn line_end(chars: &Vec<char>, from: usize) -> (end: usize)
    requires
        from <= chars.len(),
    ensures
        from <= end <= chars.len(),
        end - from == first_line_len(chars@.skip(from as int)),
{
    let n = chars.len();
    let ghost tail = chars@.skip(from as int);
    let mut end: usize = from;
    assert(tail.skip(0) =~= tail);
    while end < n && chars[end] != '\n'
        invariant
            from <= end <= n,
            n == chars.len(),
            tail == chars@.skip(from as int),
            (end - from) + first_line_len(tail.skip(end - from)) == first_line_len(tail),
        decreases n - end,
    {
        proof {
            let here = tail.skip(end - from);
            assert(here[0] == chars@[end as int]);
            assert(here.drop_first() =~= tail.skip(end - from + 1));
        }
        end += 1;
    }
    proof {
        let here = tail.skip(end - from);
        if end < n {
            assert(here[0] == chars@[end as int]);
        }
        assert(tail.skip(0) =~= tail);
    }
    end
}

/// Appends the indentation of the characters from `from` up to `to` and
/// returns where their content starts.
fn push_leading(chars: &Vec<char>, from: usize, to: usize, out: &mut String) -> (k: usize)
    requires
        from <= to <= chars.len(),
    ensures
        from <= k <= to,
        k - from == leading_len(chars@.subrange(from as int, to as int)),
        final(out)@ == old(out)@ + chars@.subrange(from as int, k as int),
{
    let ghost line = chars@.subrange(from as int, to as int);
    let ghost start = out@;
    let mut k: usize = from;
    assert(out@ =~= start + chars@.subrange(from as int, k as int));
    assert(line.skip(0) =~= line);
    while k < to && (chars[k] == ' ' || chars[k] == '\t')
        invariant
            from <= k <= to <= chars.len(),
            line == chars@.subrange(from as int, to as int),
            (k - from) + leading_len(line.skip(k - from)) == leading_len(line),
            out@ == start + chars@.subrange(from as int, k as int),
        decreases to - k,
    {
        proof {
            let here = line.skip(k - from);
            assert(here[0] == chars@[k as int]);
            assert(here.drop_first() =~= line.skip(k - from + 1));
        }
        out.push(chars[k]);
        k += 1;
        assert(out@ =~= start + chars@.subrange(from as int, k as int));
    }
    proof {
        let here = line.skip(k - from);
        if k < to {
            assert(here[0] == chars@[k as int]);
        }
    }
    k
}

/// Appends the characters from `from` up to `to` without the white space
/// that stands outside quotes.
fn push_despaced(chars: &Vec<char>, from: usize, to: usize, out: &mut String)
    requires
        from <= to <= chars.len(),
    ensures
        final(out)@ == old(out)@ + spec_despace(chars@.subrange(from as int, to as int), false),
{
    let ghost content = chars@.subrange(from as int, to as int);
    let ghost start = out@;
    let ghost whole = spec_despace(content, false);
    let mut in_quotes = false;
    let mut i: usize = from;
    assert(content.skip(0) =~= content);
    assert(out@ + whole =~= start + whole);
    while i < to
        invariant
            from <= i <= to <= chars.len(),
            content == chars@.subrange(from as int, to as int),
            whole == spec_despace(content, false),
            out@ + spec_despace(content.skip(i - from), in_quotes) == start + whole,
        decreases to - i,
    {
        let c = chars[i];
        proof {
            let here = content.skip(i - from);
            assert(here[0] == c);
            assert(here.drop_first() =~= content.skip(i - from + 1));
        }
        let ghost sofar = out@;
        let ghost tail = spec_despace(content.skip(i - from + 1), if is_quote(c) {
            !in_quotes
        } else {
            in_quotes
        });
        if c == '"' || c == '\'' {
            in_quotes = !in_quotes;
            out.push(c);
            assert(out@ + tail =~= sofar + (seq![c] + tail));
        } else if is_whitespace(c) && !in_quotes {
        } else {
            out.push(c);
            assert(out@ + tail =~= sofar + (seq![c] + tail));
        }
        i += 1;
    }
    assert(content.skip(to - from) =~= Seq::<char>::empty());
    assert(out@ + Seq::<char>::empty() =~= out@);
}

/// Appends the normal form of the line that runs from `from` up to the line
/// feed at `end`.
fn push_line(chars: &Vec<char>, from: usize, end: usize, out: &mut String)
    requires
        from <= end <= chars.len(),
    ensures
        final(out)@ == old(out)@ + spec_normalize_line(
            strip_carriage_return(chars@.subrange(from as int, end as int)),
        ),
{
    let stop: usize = if end > from && chars[end - 1] == '\r' {
        end - 1
    } else {
        end
    };
    let ghost line = strip_carriage_return(chars@.subrange(from as int, end as int));
    let ghost start = out@;
    assert(line =~= chars@.subrange(from as int, stop as int));
    let k = push_leading(chars, from, stop, out);
    push_despaced(chars, k, stop, out);
    proof {
        assert(line.take(k - from) =~= chars@.subrange(from as int, k as int));
        assert(line.skip(k - from) =~= chars@.subrange(k as int, stop as int));
        assert(out@ =~= start + spec_normalize_line(line));
    }
}

/// In a text that ends in a line feed, the lines from `from` on are the line
/// at `from` and the lines behind its line feed.
proof fn lemma_normalize_lines_step(s: Seq<char>, from: int, end: int)
    requires
        0 <= from < s.len(),
        s.last() == '\n',
        end - from == first_line_len(s.skip(from)),
    ensures
        from <= end < s.len(),
        spec_normalize_lines(s.skip(from)) == spec_normalize_line(
            strip_carriage_return(s.subrange(from, end)),
        ).push('\n') + spec_normalize_lines(s.skip(end + 1)),
{
    let tail = s.skip(from);
    lemma_first_line_len(tail);
    assert(tail.last() == '\n');
    if first_line_len(tail) >= tail.len() {
        assert(tail[tail.len() - 1] != '\n');
    }
    assert(tail.take(end - from) =~= s.subrange(from, end));
    assert(tail.skip(end - from + 1) =~= s.skip(end + 1));
}

/// Puts every line of `raw_source` into normal form.
pub fn normalize_source_code_and_despace(raw_source: &str) -> (r: String)
    ensures
        r@ == spec_normalize_source(raw_source@),
{
    let mut chars = chars_of(raw_source);
    let n0 = chars.len();
    if n0 == 0 || chars[n0 - 1] != '\n' {
        chars.push('\n');
    }
    let ghost s = chars@;
    assert(s == spec_normalize_ending_newline(raw_source@));
    let n = chars.len();
    let mut out = String::new();
    let mut p: usize = 0;
    let ghost mut done: Seq<char> = Seq::empty();
    assert(s.skip(0) =~= s);
    assert(done + spec_normalize_lines(s) =~= spec_normalize_lines(s));
    while p < n
        invariant
            p <= n,
            n == chars.len(),
            n >= 1,
            s == chars@,
            s.last() == '\n',
            done + spec_normalize_lines(s.skip(p as int)) == spec_normalize_lines(s),
            p == 0 ==> out@ == Seq::<char>::empty() && done == Seq::<char>::empty(),
            p > 0 ==> out@.push('\n') == done,
        decreases n - p,
    {
        if p > 0 {
            out.push('\n');
        }
        assert(out@ == done);
        let end = line_end(&chars, p);
        proof {
            lemma_normalize_lines_step(s, p as int, end as int);
        }
        push_line(&chars, p, end, &mut out);
        proof {
            let line = spec_normalize_line(
                strip_carriage_return(s.subrange(p as int, end as int)),
            );
            let rest = spec_normalize_lines(s.skip(end + 1));
            assert((done + line.push('\n')) + rest =~= done + (line.push('\n') + rest));
            assert(out@.push('\n') =~= done + line.push('\n'));
            done = done + line.push('\n');
        }
        p = end + 1;
    }
    proof {
        assert(s.skip(n as int) =~= Seq::<char>::empty());
        assert(spec_normalize_lines(s.skip(n as int)) =~= Seq::<char>::empty());
        assert(done + Seq::<char>::empty() =~= done);
        assert(out@.push('\n').drop_last() =~= out@);
    }
    out
}

/// Appends a line feed to `raw_source` unless it ends in one.
pub fn normalize_ending_newline(raw_source: &str) -> (r: String)
    ensures
        r@ == spec_normalize_ending_newline(raw_source@),
{
    let chars = chars_of(raw_source);
    let n = chars.len();
    let mut out = String::new();
    let mut i: usize = 0;
    assert(out@ =~= chars@.take(0));
    while i < n
        invariant
            i <= n,
            n == chars.len(),
            out@ == chars@.take(i as int),
        decreases n - i,
    {
        out.push(chars[i]);
        i += 1;
        assert(out@ =~= chars@.take(i as int));
    }
    assert(chars@.take(n as int) =~= chars@);
    if n == 0 || chars[n - 1] != '\n' {
        out.push('\n');
    }
    out
}

} // verus!
