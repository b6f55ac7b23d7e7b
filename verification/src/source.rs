//! Source text as lines of characters, with `include::` directives resolved
//! before anything else reads it.

use vstd::prelude::*;
use crate::config::{parse_config, Config, Value, ValueWrapper};
use crate::error::{DocError, DocResult, ErrorType};
use crate::text::{
    chars_of, find, find_char, lemma_find, lemma_views_push, slice_of, spells, split, split_chars,
    string_of, views,
};

verus! {

/// A text as its lines.
pub struct Source {
    pub lines: Vec<Vec<char>>,
    /// The number of characters in all lines, line ends not counted; `usize::MAX`
    /// where there are more.
    pub length: usize,
}

/// What an include directive asks for.
#[derive(Debug)]
pub struct IncludeInfo {
    pub path: String,
    pub options: Config,
}

/// `line` without a `\r` at its end.
pub open spec fn strip_cr(line: Seq<char>) -> Seq<char> {
    if line.len() > 0 && line.last() == '\r' {
        line.drop_last()
    } else {
        line
    }
}

/// Each of `pieces` without a `\r` at its end.
pub open spec fn strip_all(pieces: Seq<Seq<char>>) -> Seq<Seq<char>> {
    Seq::new(pieces.len(), |i: int| strip_cr(pieces[i]))
}

/// The lines of a text. A line ends at `\n` or at `\r\n`, and neither
/// belongs to the line. What follows the last `\n` is a line unless it is
/// empty; a `\r` at its end stays.
pub open spec fn lines_of(s: Seq<char>) -> Seq<Seq<char>> {
    let pieces = split(s, '\n');
    let ended = strip_all(pieces.drop_last());
    if pieces.last().len() > 0 {
        ended.push(pieces.last())
    } else {
        ended
    }
}

/// The number of characters in all lines.
pub open spec fn total_len(lines: Seq<Seq<char>>) -> nat
    decreases lines.len(),
{
    if lines.len() == 0 {
        0
    } else {
        total_len(lines.drop_last()) + lines.last().len()
    }
}

/// The lines in a row, each followed by `\r\n`.
pub open spec fn joined(lines: Seq<Seq<char>>) -> Seq<char>
    decreases lines.len(),
{
    if lines.len() == 0 {
        Seq::empty()
    } else {
        joined(lines.drop_last()) + lines.last() + seq!['\r', '\n']
    }
}

/// A count as `usize` holds it.
pub open spec fn saturated(n: nat) -> usize {
    if n <= usize::MAX {
        n as usize
    } else {
        usize::MAX
    }
}

/// The path of an include directive: a line that starts with `include::`,
/// ends with `]` and holds a `[` names what stands between `include::` and
/// its first `[`. No other line is a directive.
pub open spec fn include_path(line: Seq<char>) -> Option<Seq<char>> {
    if line.len() >= 9 && line.take(9) == "include::"@ && line.last() == ']' && line.contains('[') {
        Some(line.subrange(9, find(line, '[')))
    } else {
        None
    }
}

/// The options of an include directive: what stands between its first `[`
/// and the `]` at its end.
pub open spec fn include_options(line: Seq<char>) -> Seq<char> {
    line.subrange(find(line, '[') + 1, line.len() - 1)
}

/// What stands in place of a directive: the text it resolved to, or the
/// directive itself behind one space.
pub open spec fn substitute(line: Seq<char>, resolved: Option<Seq<char>>) -> Seq<char> {
    match resolved {
        Some(text) => text,
        None => seq![' '] + line,
    }
}

/// The characters of an answer, where there is one.
pub open spec fn answer_text(answer: Option<String>) -> Option<Seq<char>> {
    match answer {
        Some(text) => Some(text@),
        None => None,
    }
}

/// Whether `hook` can give `out` for `line`.
pub open spec fn hook_gives<F: Fn(&str) -> String>(hook: F, line: Seq<char>, out: Seq<char>) -> bool {
    exists|l: &str, o: String| l@ == line && o@ == out && call_ensures(hook, (l,), o)
}

/// Whether `hook` can resolve `path` to `out`.
pub open spec fn resolver_gives<F: Fn(&str) -> Option<String>>(
    hook: F,
    path: Seq<char>,
    out: Option<Seq<char>>,
) -> bool {
    exists|p: &str, o: Option<String>|
        p@ == path && call_ensures(hook, (p,), o) && out == answer_text(o)
}

/// Whether `out` can stand for `line` once includes are resolved by
/// `hook`: a directive gives way to what `hook` resolves its path to, and
/// any other line stays.
pub open spec fn resolved_line<F: Fn(&str) -> Option<String>>(
    hook: F,
    line: Seq<char>,
    out: Seq<char>,
) -> bool {
    match include_path(line) {
        None => out == line,
        Some(path) => exists|resolved: Option<Seq<char>>|
            resolver_gives(hook, path, resolved) && out == substitute(line, resolved),
    }
}

proof fn lemma_total_push(lines: Seq<Seq<char>>, line: Seq<char>)
    ensures
        total_len(lines.push(line)) == total_len(lines) + line.len(),
{
    assert(lines.push(line).drop_last() == lines);
}

proof fn lemma_total_prepend(line: Seq<char>, lines: Seq<Seq<char>>)
    ensures
        total_len(seq![line] + lines) == line.len() + total_len(lines),
    decreases lines.len(),
{
    let all = seq![line] + lines;
    if lines.len() == 0 {
        assert(all.drop_last() == Seq::<Seq<char>>::empty());
        assert(all.last() == line);
        assert(total_len(all.drop_last()) == 0);
    } else {
        assert(all.drop_last() == seq![line] + lines.drop_last());
        assert(all.last() == lines.last());
        lemma_total_prepend(line, lines.drop_last());
    }
}

proof fn lemma_split_total(s: Seq<char>, sep: char)
    ensures
        total_len(split(s, sep)) <= s.len(),
    decreases s.len(),
{
    let i = find(s, sep);
    lemma_find(s, sep);
    if i < s.len() {
        lemma_split_total(s.skip(i + 1), sep);
        lemma_total_prepend(s.take(i), split(s.skip(i + 1), sep));
    } else {
        lemma_total_push(Seq::empty(), s);
        assert(Seq::<Seq<char>>::empty().push(s) == seq![s]);
    }
}

proof fn lemma_strip_total(pieces: Seq<Seq<char>>)
    ensures
        total_len(strip_all(pieces)) <= total_len(pieces),
    decreases pieces.len(),
{
    if pieces.len() > 0 {
        lemma_strip_total(pieces.drop_last());
        assert(strip_all(pieces).drop_last() == strip_all(pieces.drop_last()));
    }
}

/// The lines of a text hold no more characters than the text.
pub proof fn lemma_lines_total(s: Seq<char>)
    ensures
        total_len(lines_of(s)) <= s.len(),
{
    let pieces = split(s, '\n');
    lemma_split_total(s, '\n');
    lemma_strip_total(pieces.drop_last());
    lemma_total_push(strip_all(pieces.drop_last()), pieces.last());
}

fn split_lines(text: &Vec<char>) -> (lines: Vec<Vec<char>>)
    ensures
        views(lines@) == lines_of(text@),
{
    let pieces = split_chars(text, '\n');
    let ghost all = views(pieces@);
    let ended = pieces.len() - 1;
    let mut lines: Vec<Vec<char>> = Vec::new();
    let mut i: usize = 0;
    while i < ended
        invariant
            i <= ended,
            ended == pieces.len() - 1,
            all == views(pieces@),
            views(lines@) == strip_all(all.drop_last()).take(i as int),
        decreases ended - i,
    {
        let piece = &pieces[i];
        let n = piece.len();
        let line = if n > 0 && piece[n - 1] == '\r' {
            slice_of(piece, 0, n - 1)
        } else {
            slice_of(piece, 0, n)
        };
        proof {
            assert(piece@.subrange(0, n as int) == piece@);
            assert(piece@.subrange(0, n - 1) == piece@.drop_last());
            assert(line@ == strip_cr(all.drop_last()[i as int]));
            lemma_views_push(lines@, line);
            assert(strip_all(all.drop_last()).take(i + 1) == strip_all(all.drop_last()).take(
                i as int,
            ).push(line@));
        }
        lines.push(line);
        i += 1;
    }
    proof {
        assert(strip_all(all.drop_last()).take(i as int) == strip_all(all.drop_last()));
    }
    let tail = &pieces[ended];
    if tail.len() > 0 {
        let line = slice_of(tail, 0, tail.len());
        proof {
            assert(line@ == tail@);
            lemma_views_push(lines@, line);
        }
        lines.push(line);
    }
    lines
}

fn count_chars(lines: &Vec<Vec<char>>) -> (n: usize)
    ensures
        n == saturated(total_len(views(lines@))),
{
    let ghost all = views(lines@);
    let mut n: usize = 0;
    let mut i: usize = 0;
    proof {
        assert(all.take(0) == Seq::<Seq<char>>::empty());
    }
    while i < lines.len()
        invariant
            i <= lines.len(),
            all == views(lines@),
            n == saturated(total_len(all.take(i as int))),
        decreases lines.len() - i,
    {
        proof {
            assert(all.take(i + 1) == all.take(i as int).push(lines@[i as int]@));
            lemma_total_push(all.take(i as int), lines@[i as int]@);
        }
        let len = lines[i].len();
        n = if len > usize::MAX - n {
            usize::MAX
        } else {
            n + len
        };
        i += 1;
    }
    proof {
        assert(all.take(i as int) == all);
    }
    n
}

impl Source {
    /// Whether `length` is the number of characters in the lines.
    pub open spec fn wf(&self) -> bool {
        self.length == saturated(total_len(views(self.lines@)))
    }

    /// The lines of `data`, and the number of characters in them.
    pub fn from(data: &str) -> (source: Self)
        ensures
            views(source.lines@) == lines_of(data@),
            source.length == total_len(lines_of(data@)),
            source.wf(),
    {
        let text = chars_of(data);
        let size = text.len();
        let lines = split_lines(&text);
        let length = count_chars(&lines);
        proof {
            lemma_lines_total(data@);
            assert(total_len(lines_of(data@)) <= size);
        }
        Source { lines, length }
    }

    /// The lines of `data`, each as `hook` gives it back. `hook` is called
    /// once for each line, from the first to the last.
    pub fn from_line_hook<F: Fn(&str) -> String>(data: &str, hook: F) -> (source: Self)
        requires
            forall|line: &str| call_requires(hook, (line,)),
        ensures
            source.lines@.len() == lines_of(data@).len(),
            forall|i: int|
                0 <= i < source.lines@.len() ==> hook_gives(
                    hook,
                    lines_of(data@)[i],
                    #[trigger] source.lines@[i]@,
                ),
            source.wf(),
    {
        let raw = split_lines(&chars_of(data));
        let mut lines: Vec<Vec<char>> = Vec::new();
        let mut i: usize = 0;
        while i < raw.len()
            invariant
                i <= raw.len(),
                lines@.len() == i,
                views(raw@) == lines_of(data@),
                forall|line: &str| call_requires(hook, (line,)),
                forall|k: int|
                    0 <= k < i ==> hook_gives(hook, lines_of(data@)[k], #[trigger] lines@[k]@),
            decreases raw.len() - i,
        {
            let line = string_of(&raw[i]);
            let out = hook(line.as_str());
            let chars = chars_of(out.as_str());
            proof {
                assert(views(raw@)[i as int] == raw@[i as int]@);
                assert(hook_gives(hook, lines_of(data@)[i as int], chars@));
            }
            lines.push(chars);
            i += 1;
        }
        let length = count_chars(&lines);
        Source { lines, length }
    }

    /// The lines of `src` with its include directives resolved. For each
    /// directive, from the first to the last, `path_hook` is called with
    /// the path; the text it gives stands in place of the line, and where
    /// it gives none the line stays, behind one space. Other lines stay as
    /// they are.
    pub fn from_prebuild_include<F: Fn(&str) -> Option<String>>(src: &str, path_hook: F) -> (source:
        Self)
        requires
            forall|path: &str| call_requires(path_hook, (path,)),
        ensures
            source.lines@.len() == lines_of(src@).len(),
            forall|i: int|
                0 <= i < source.lines@.len() ==> resolved_line(
                    path_hook,
                    lines_of(src@)[i],
                    #[trigger] source.lines@[i]@,
                ),
            source.wf(),
    {
        let raw = split_lines(&chars_of(src));
        let mut lines: Vec<Vec<char>> = Vec::new();
        let mut i: usize = 0;
        while i < raw.len()
            invariant
                i <= raw.len(),
                lines@.len() == i,
                views(raw@) == lines_of(src@),
                forall|path: &str| call_requires(path_hook, (path,)),
                forall|k: int|
                    0 <= k < i ==> resolved_line(path_hook, lines_of(src@)[k], #[trigger] lines@[k]@),
            decreases raw.len() - i,
        {
            let line = &raw[i];
            proof {
                assert(views(raw@)[i as int] == line@);
            }
            let out = match Self::include_path_of(line) {
                None => slice_of(line, 0, line.len()),
                Some(path) => {
                    let answer = path_hook(path.as_str());
                    let ghost resolved = answer_text(answer);
                    proof {
                        assert(resolver_gives(path_hook, path@, resolved));
                    }
                    Self::substitute_line(line, answer)
                },
            };
            proof {
                assert(line@.subrange(0, line.len() as int) == line@);
                assert(resolved_line(path_hook, lines_of(src@)[i as int], out@));
            }
            lines.push(out);
            i += 1;
        }
        let length = count_chars(&lines);
        Source { lines, length }
    }

    /// The text of the lines, each followed by `\r\n`.
    pub fn to_text(&self) -> (text: String)
        ensures
            text@ == joined(views(self.lines@)),
    {
        let ghost all = views(self.lines@);
        let mut out: Vec<char> = Vec::new();
        let mut i: usize = 0;
        proof {
            assert(all.take(0) == Seq::<Seq<char>>::empty());
        }
        while i < self.lines.len()
            invariant
                i <= self.lines.len(),
                all == views(self.lines@),
                out@ == joined(all.take(i as int)),
            decreases self.lines.len() - i,
        {
            let line = &self.lines[i];
            let mut copy = slice_of(line, 0, line.len());
            proof {
                assert(copy@ == line@);
                assert(all.take(i + 1).drop_last() == all.take(i as int));
                assert(all.take(i + 1).last() == line@);
            }
            out.append(&mut copy);
            out.push('\r');
            out.push('\n');
            proof {
                assert(out@ =~= joined(all.take(i as int)) + line@ + seq!['\r', '\n']);
            }
            i += 1;
        }
        proof {
            assert(all.take(i as int) == all);
        }
        string_of(&out)
    }

    /// The path of the include directive that `line` is, if it is one.
    pub fn include_path_of(line: &Vec<char>) -> (r: Option<String>)
        ensures
            match r {
                Some(path) => include_path(line@) == Some(path@),
                None => include_path(line@) is None,
            },
    {
        let n = line.len();
        if n < 9 || line[n - 1] != ']' {
            return None;
        }
        let head = slice_of(line, 0, 9);
        proof {
            assert(line@.take(9) == line@.subrange(0, 9));
            lemma_find(line@, '[');
        }
        if !spells(&head, "include::") {
            return None;
        }
        let open = find_char(line, '[');
        if open == n {
            return None;
        }
        proof {
            reveal_strlit("include::");
            if open < 9 {
                assert(line@.take(9)[open as int] == '[');
            }
        }
        Some(string_of(&slice_of(line, 9, open)))
    }

    /// What stands in place of a directive: the text it resolved to, or the
    /// directive itself behind one space.
    pub fn substitute_line(line: &Vec<char>, resolved: Option<String>) -> (out: Vec<char>)
        ensures
            out@ == substitute(line@, answer_text(resolved)),
    {
        match resolved {
            Some(text) => chars_of(text.as_str()),
            None => {
                let mut out: Vec<char> = Vec::new();
                out.push(' ');
                let mut rest = slice_of(line, 0, line.len());
                out.append(&mut rest);
                assert(out@ =~= seq![' '] + line@);
                out
            },
        }
    }

    /// Reads an include directive: its path, and its options as a
    /// configuration. A line that is no directive gives `None`. Options
    /// that cannot be read as a configuration are refused as malformed,
    /// and the error carries the key that cannot be merged.
    pub fn parse_include(line: &str) -> (r: DocResult<Option<IncludeInfo>>)
        ensures
            match r {
                Ok(None) => include_path(line@) is None,
                Ok(Some(info)) => include_path(line@) == Some(info.path@) && parse_config(
                    include_options(line@),
                ) == Ok::<_, Seq<char>>(info.options@),
                Err(e) => e matches DocError::SoftError(ErrorType::Format(k))
                    && include_path(line@) is Some && parse_config(include_options(line@))
                    == Err::<Map<Seq<char>, Value>, _>(k@),
            },
    {
        let chars = chars_of(line);
        match Self::include_path_of(&chars) {
            None => Ok(None),
            Some(path) => {
                proof {
                    lemma_find(chars@, '[');
                }
                let open = find_char(&chars, '[');
                let options = string_of(&slice_of(&chars, open + 1, chars.len() - 1));
                match ValueWrapper::from(options.as_str()) {
                    Ok(options) => Ok(Some(IncludeInfo { path, options })),
                    Err(e) => Err(e),
                }
            },
        }
    }
}

} // verus!
