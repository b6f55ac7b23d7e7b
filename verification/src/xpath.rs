//! The path language: one segment for each level of the tree.
//!
//! | text       | segment                |
//! |------------|------------------------|
//! | `type`     | `Type(type)`           |
//! | `#id`      | `Id(id)`               |
//! | `.tag`     | `Tag(tag)`             |
//! | `:n`       | `Index(n)`             |
//! | `type#id`  | `TypeId(type, id)`     |
//! | `type:n`   | `TypeIndex(type, n)`   |
//! | `type.tag` | `TypeTag(type, tag)`   |
//!
//! A segment holds at most one of `#`, `:`, `.` and no space.

use vstd::prelude::*;
use crate::error::{DocError, DocResult, ErrorType};
use crate::number::{
    decimal_digits, is_digit, lemma_decimal_digits, lemma_parse_usize_of_digits, parse_usize,
    push_decimal, read_usize,
};
use crate::text::{
    chars_of, find, find_char, lemma_find, lemma_find_is, slice_of, split, split_chars, string_of,
    trim, trim_chars, views,
};

verus! {

/// One query against the children of a node.
#[derive(Debug, Eq, PartialEq, Clone)]
pub enum PathSelectType {
    Type(String),
    Id(String),
    Tag(String),
    Index(usize),
    TypeId(String, String),
    TypeIndex(String, usize),
    TypeTag(String, String),
}

/// One segment for each level, from the root down.
pub type DocumentPath = Vec<PathSelectType>;

/// What a `PathSelectType` stands for.
pub enum Segment {
    Type(Seq<char>),
    Id(Seq<char>),
    Tag(Seq<char>),
    Index(usize),
    TypeId(Seq<char>, Seq<char>),
    TypeIndex(Seq<char>, usize),
    TypeTag(Seq<char>, Seq<char>),
}

impl View for PathSelectType {
    type V = Segment;

    open spec fn view(&self) -> Segment {
        match self {
            PathSelectType::Type(t) => Segment::Type(t@),
            PathSelectType::Id(i) => Segment::Id(i@),
            PathSelectType::Tag(t) => Segment::Tag(t@),
            PathSelectType::Index(n) => Segment::Index(*n),
            PathSelectType::TypeId(t, i) => Segment::TypeId(t@, i@),
            PathSelectType::TypeIndex(t, n) => Segment::TypeIndex(t@, *n),
            PathSelectType::TypeTag(t, g) => Segment::TypeTag(t@, g@),
        }
    }
}

pub open spec fn is_operator(c: char) -> bool {
    c == '#' || c == ':' || c == '.'
}

/// No space, and at most one operator.
pub open spec fn well_formed(s: Seq<char>) -> bool {
    &&& !s.contains(' ')
    &&& forall|i: int, j: int| 0 <= i < j < s.len() ==> !(is_operator(s[i]) && is_operator(s[j]))
}

/// The segment that `s` writes, where it writes one.
pub open spec fn parse_segment(s: Seq<char>) -> Option<Segment> {
    if !well_formed(s) {
        None
    } else if s.contains('#') {
        let at = find(s, '#');
        if at == 0 {
            Some(Segment::Id(s.skip(1)))
        } else {
            Some(Segment::TypeId(s.take(at), s.skip(at + 1)))
        }
    } else if s.contains(':') {
        let at = find(s, ':');
        match parse_usize(s.skip(at + 1)) {
            None => None,
            Some(n) => if at == 0 {
                Some(Segment::Index(n))
            } else {
                Some(Segment::TypeIndex(s.take(at), n))
            },
        }
    } else if s.contains('.') {
        let at = find(s, '.');
        if at == 0 {
            Some(Segment::Tag(s.skip(1)))
        } else {
            Some(Segment::TypeTag(s.take(at), s.skip(at + 1)))
        }
    } else {
        Some(Segment::Type(s))
    }
}

/// The segments that the pieces of a path write. Whitespace around a piece
/// does not count, and a piece of nothing else is passed over. The error is
/// the first piece that writes no segment.
pub open spec fn segments_of(pieces: Seq<Seq<char>>) -> Result<Seq<Segment>, Seq<char>>
    decreases pieces.len(),
{
    if pieces.len() == 0 {
        Ok(Seq::empty())
    } else {
        match segments_of(pieces.drop_last()) {
            Err(token) => Err(token),
            Ok(path) => {
                let token = trim(pieces.last());
                if token.len() == 0 {
                    Ok(path)
                } else {
                    match parse_segment(token) {
                        Some(segment) => Ok(path.push(segment)),
                        None => Err(token),
                    }
                }
            },
        }
    }
}

/// The path that `s` writes: its pieces between `/`, each a segment.
pub open spec fn parse_path(s: Seq<char>) -> Result<Seq<Segment>, Seq<char>> {
    segments_of(split(s, '/'))
}

/// The text of a segment.
pub open spec fn render(segment: Segment) -> Seq<char> {
    match segment {
        Segment::Type(t) => t,
        Segment::Id(i) => seq!['#'] + i,
        Segment::Tag(t) => seq!['.'] + t,
        Segment::Index(n) => seq![':'] + decimal_digits(n as nat),
        Segment::TypeId(t, i) => t + seq!['#'] + i,
        Segment::TypeIndex(t, n) => t + seq![':'] + decimal_digits(n as nat),
        Segment::TypeTag(t, g) => t + seq!['.'] + g,
    }
}

/// The text of a path: each segment behind a `/`.
pub open spec fn render_path(path: Seq<Segment>) -> Seq<char>
    decreases path.len(),
{
    if path.len() == 0 {
        Seq::empty()
    } else {
        render_path(path.drop_last()) + seq!['/'] + render(path.last())
    }
}

proof fn lemma_segments_error_stays(pieces: Seq<Seq<char>>, k: int)
    requires
        0 <= k <= pieces.len(),
        segments_of(pieces.take(k)) is Err,
    ensures
        segments_of(pieces) == segments_of(pieces.take(k)),
    decreases pieces.len(),
{
    if k == pieces.len() {
        assert(pieces.take(k) == pieces);
    } else {
        assert(pieces.drop_last().take(k) == pieces.take(k));
        lemma_segments_error_stays(pieces.drop_last(), k);
    }
}

/// A segment that was read from a text is read again from its own text.
pub proof fn lemma_render_parse(s: Seq<char>)
    requires
        parse_segment(s) is Some,
    ensures
        parse_segment(render(parse_segment(s)->0)) == parse_segment(s),
{
    let segment = parse_segment(s)->0;
    let r = render(segment);
    lemma_find(s, '#');
    lemma_find(s, ':');
    lemma_find(s, '.');
    if !s.contains('#') && s.contains(':') {
        let at = find(s, ':');
        let n = parse_usize(s.skip(at + 1))->0;
        let digits = decimal_digits(n as nat);
        lemma_decimal_digits(n as nat);
        lemma_parse_usize_of_digits(n);
        let head = s.take(at);
        assert(r == head + seq![':'] + digits);
        assert forall|i: int| 0 <= i < r.len() && i != at implies !is_operator(r[i]) && r[i]
            != ' ' by {
            if i < at {
                assert(r[i] == s[i]);
                assert(is_operator(s[at]));
                assert(s.contains(s[i]));
            } else {
                assert(r[i] == digits[i - at - 1]);
                assert(is_digit(digits[i - at - 1]));
            }
        }
        assert(r[at] == ':');
        assert(well_formed(r)) by {
            if r.contains(' ') {
                let i = choose|i: int| 0 <= i < r.len() && r[i] == ' ';
                assert(i != at);
            }
        }
        if r.contains('#') {
            let i = choose|i: int| 0 <= i < r.len() && r[i] == '#';
            assert(i != at);
        }
        lemma_find_is(r, ':', at);
        assert(r.take(at) == head);
        assert(r.skip(at + 1) == digits);
    } else {
        assert(r =~= s);
    }
}

fn operator(c: char) -> (r: bool)
    ensures
        r == is_operator(c),
{
    c == '#' || c == ':' || c == '.'
}

fn check_segment(v: &Vec<char>) -> (r: bool)
    ensures
        r == well_formed(v@),
{
    let mut seen = false;
    let mut i: usize = 0;
    while i < v.len()
        invariant
            i <= v.len(),
            forall|j: int| 0 <= j < i ==> v@[j] != ' ',
            forall|a: int, b: int| 0 <= a < b < i ==> !(is_operator(v@[a]) && is_operator(v@[b])),
            seen <==> exists|a: int| 0 <= a < i && is_operator(v@[a]),
        decreases v.len() - i,
    {
        if v[i] == ' ' {
            return false;
        }
        if operator(v[i]) {
            if seen {
                proof {
                    let a = choose|a: int| 0 <= a < i && is_operator(v@[a]);
                    assert(is_operator(v@[a]) && is_operator(v@[i as int]));
                }
                return false;
            }
            seen = true;
        }
        i += 1;
    }
    true
}

impl PathSelectType {
    /// Reads one segment. A text with a space, with more than one operator,
    /// or with an index that is no number is refused as malformed, and the
    /// error carries the text.
    pub fn from(str: &str) -> (r: DocResult<Self>)
        ensures
            match r {
                Ok(segment) => parse_segment(str@) == Some(segment@),
                Err(e) => e matches DocError::SoftError(ErrorType::Format(t)) && t@ == str@
                    && parse_segment(str@) is None,
            },
    {
        match Self::from_chars(&chars_of(str)) {
            Some(segment) => Ok(segment),
            None => ErrorType::format_error(str.to_owned()),
        }
    }

    /// Reads one segment from its characters.
    pub fn from_chars(v: &Vec<char>) -> (r: Option<Self>)
        ensures
            match r {
                Some(segment) => parse_segment(v@) == Some(segment@),
                None => parse_segment(v@) is None,
            },
    {
        if !check_segment(v) {
            return None;
        }
        proof {
            lemma_find(v@, '#');
            lemma_find(v@, ':');
            lemma_find(v@, '.');
        }
        let n = v.len();
        let hash = find_char(v, '#');
        if hash < n {
            let id = string_of(&slice_of(v, hash + 1, n));
            return Some(
                if hash == 0 {
                    PathSelectType::Id(id)
                } else {
                    PathSelectType::TypeId(string_of(&slice_of(v, 0, hash)), id)
                },
            );
        }
        let colon = find_char(v, ':');
        if colon < n {
            return match read_usize(&slice_of(v, colon + 1, n)) {
                None => None,
                Some(index) => Some(
                    if colon == 0 {
                        PathSelectType::Index(index)
                    } else {
                        PathSelectType::TypeIndex(string_of(&slice_of(v, 0, colon)), index)
                    },
                ),
            };
        }
        let dot = find_char(v, '.');
        if dot < n {
            let tag = string_of(&slice_of(v, dot + 1, n));
            return Some(
                if dot == 0 {
                    PathSelectType::Tag(tag)
                } else {
                    PathSelectType::TypeTag(string_of(&slice_of(v, 0, dot)), tag)
                },
            );
        }
        Some(PathSelectType::Type(string_of(v)))
    }

    /// Reads a path: segments between `/`. Empty pieces, and pieces of
    /// whitespace alone, are passed over, so a `/` at the start, at the end
    /// or twice in a row does no harm. The first piece that writes no
    /// segment is refused as malformed, and the error carries it.
    pub fn from_path(path: &str) -> (r: DocResult<Vec<Self>>)
        ensures
            match r {
                Ok(segments) => parse_path(path@) == Ok::<_, Seq<char>>(views(segments@)),
                Err(e) => e matches DocError::SoftError(ErrorType::Format(t)) && parse_path(path@)
                    == Err::<Seq<Segment>, _>(t@),
            },
    {
        let pieces = split_chars(&chars_of(path), '/');
        let ghost all = views(pieces@);
        let mut out: Vec<PathSelectType> = Vec::new();
        let mut i: usize = 0;
        proof {
            assert(all.take(0) == Seq::<Seq<char>>::empty());
            assert(views(out@) == Seq::<Segment>::empty());
        }
        while i < pieces.len()
            invariant
                i <= pieces.len(),
                all == views(pieces@),
                all == split(path@, '/'),
                segments_of(all.take(i as int)) == Ok::<_, Seq<char>>(views(out@)),
            decreases pieces.len() - i,
        {
            let token = trim_chars(&pieces[i]);
            proof {
                assert(all.take(i + 1).drop_last() == all.take(i as int));
                assert(all.take(i + 1).last() == pieces@[i as int]@);
            }
            if token.len() > 0 {
                match Self::from_chars(&token) {
                    Some(segment) => {
                        proof {
                            crate::text::lemma_views_push(out@, segment);
                        }
                        out.push(segment);
                    },
                    None => {
                        proof {
                            assert(segments_of(all.take(i + 1)) == Err::<Seq<Segment>, _>(token@));
                            lemma_segments_error_stays(all, i + 1);
                        }
                        return ErrorType::format_error(string_of(&token));
                    },
                }
            }
            i += 1;
        }
        proof {
            assert(all.take(i as int) == all);
        }
        Ok(out)
    }

    /// Appends the text of this segment to `out`.
    pub fn write_to(&self, out: &mut Vec<char>)
        ensures
            final(out)@ == old(out)@ + render(self@),
    {
        match self {
            PathSelectType::Type(t) => {
                push_all(out, t);
            },
            PathSelectType::Id(i) => {
                out.push('#');
                push_all(out, i);
            },
            PathSelectType::Tag(t) => {
                out.push('.');
                push_all(out, t);
            },
            PathSelectType::Index(n) => {
                out.push(':');
                push_decimal(out, *n as u64);
            },
            PathSelectType::TypeId(t, i) => {
                push_all(out, t);
                out.push('#');
                push_all(out, i);
            },
            PathSelectType::TypeIndex(t, n) => {
                push_all(out, t);
                out.push(':');
                push_decimal(out, *n as u64);
            },
            PathSelectType::TypeTag(t, g) => {
                push_all(out, t);
                out.push('.');
                push_all(out, g);
            },
        }
        assert(out@ =~= old(out)@ + render(self@));
    }

    /// The text of this segment. Reading it gives the segment back.
    pub fn to_path(&self) -> (s: String)
        ensures
            s@ == render(self@),
    {
        let mut out: Vec<char> = Vec::new();
        self.write_to(&mut out);
        assert(out@ =~= render(self@));
        string_of(&out)
    }

    /// The text of a path: each segment behind a `/`.
    pub fn path_text(path: &Vec<Self>) -> (s: String)
        ensures
            s@ == render_path(views(path@)),
    {
        let ghost all = views(path@);
        let mut out: Vec<char> = Vec::new();
        let mut i: usize = 0;
        proof {
            assert(all.take(0) == Seq::<Segment>::empty());
        }
        while i < path.len()
            invariant
                i <= path.len(),
                all == views(path@),
                out@ == render_path(all.take(i as int)),
            decreases path.len() - i,
        {
            proof {
                assert(all.take(i + 1).drop_last() == all.take(i as int));
                assert(all.take(i + 1).last() == path@[i as int]@);
            }
            out.push('/');
            path[i].write_to(&mut out);
            proof {
                assert(out@ =~= render_path(all.take(i as int)) + seq!['/'] + render(path@[i as int]@));
            }
            i += 1;
        }
        proof {
            assert(all.take(i as int) == all);
        }
        string_of(&out)
    }
}

fn push_all(out: &mut Vec<char>, s: &String)
    ensures
        final(out)@ == old(out)@ + s@,
{
    let mut chars = chars_of(s.as_str());
    out.append(&mut chars);
}

} // verus!
