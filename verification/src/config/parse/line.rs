use vstd::prelude::*;
use vstd::string::StrSliceExecFns;

verus! {

/// What one line of the template grammar turned out to be.
#[derive(Clone, Copy, Debug, PartialEq, Eq, Structural)]
pub enum ConfigLineKind {
    /// `[name]`: opens a new template block.
    Header,
    /// `name/`: a directory entry; children may follow, indented one level deeper.
    Folder,
    /// `name`: an empty-file entry.
    File,
    /// A line of nothing but whitespace: closes the current template block.
    Empty,
}

/// Why a single line (or, later, the whole document) was rejected.
#[derive(Clone, Copy, Debug, PartialEq, Eq, Structural)]
pub enum LineErrorKind {
    /// A header was opened with `[` but never closed with `]` on the same line.
    NoClosingHeader,
    /// The line could not be read from the underlying source.
    IO,
    /// A folder or file line appeared before any header.
    MissingHeader,
    /// A header appeared while a template block was still open.
    HeaderInTemplate,
    /// A tab was used in the indentation.
    WrongIndentation,
    /// The line is indented more than one level past its nearest open ancestor.
    IndentJumpTooLarge,
    /// Two entries under the same parent share a name.
    DuplicateSiblingName,
    /// A file entry was given children.
    FileWithChildren,
}

/// One classified line: logical indent level, the entry's name, and its kind.
#[derive(Clone, Debug)]
pub struct ConfigLine {
    pub indent: u32,
    pub identifier: String,
    pub kind: ConfigLineKind,
}

/// Mathematical image of a `ConfigLine`.
pub struct LineV {
    pub indent: int,
    pub identifier: Seq<char>,
    pub kind: ConfigLineKind,
}

impl View for ConfigLine {
    type V = LineV;

    open spec fn view(&self) -> LineV {
        LineV { indent: self.indent as int, identifier: self.identifier@, kind: self.kind }
    }
}

/// Characters that count as whitespace for a blank line.
pub open spec fn is_space_char(c: char) -> bool {
    c == ' ' || c == '\t'
}

/// A line of nothing but spaces and tabs.
pub open spec fn is_blank_line(s: Seq<char>) -> bool {
    forall|i: int| 0 <= i < s.len() ==> is_space_char(#[trigger] s[i])
}

/// Index of the first character at or after `i` that is not a space.
pub open spec fn indent_from(s: Seq<char>, i: int) -> int
    decreases s.len() - i,
{
    if i < 0 || i >= s.len() || s[i] != ' ' {
        i
    } else {
        indent_from(s, i + 1)
    }
}

/// Index of the first occurrence of `c1` or `c2` at or after `i`, or the length
/// of the line if neither occurs.
pub open spec fn find_from(s: Seq<char>, i: int, c1: char, c2: char) -> int
    decreases s.len() - i,
{
    if i < 0 || i >= s.len() {
        s.len() as int
    } else if s[i] == c1 || s[i] == c2 {
        i
    } else {
        find_from(s, i + 1, c1, c2)
    }
}

/// The grammar of one line. A blank line is a separator. Leading spaces count
/// two per indent level, and a tab in the indentation is rejected. A line whose
/// first significant character is `[` is a header, closed by `]`; a `/` before
/// the `]` turns the line into a folder named by what was read so far. Any
/// other line names a file, or a folder if a `/` follows the name; scanning
/// stops at the first `/` either way.
pub open spec fn classify_spec(s: Seq<char>) -> Result<LineV, LineErrorKind> {
    if is_blank_line(s) {
        Ok(LineV { indent: 0, identifier: Seq::empty(), kind: ConfigLineKind::Empty })
    } else {
        let k = indent_from(s, 0);
        if k < s.len() && s[k] == '\t' {
            Err(LineErrorKind::WrongIndentation)
        } else if k < s.len() && s[k] == '[' {
            let e = find_from(s, k + 1, ']', '/');
            if e == s.len() {
                Err(LineErrorKind::NoClosingHeader)
            } else if s[e] == ']' {
                Ok(LineV { indent: k / 2, identifier: s.subrange(k + 1, e), kind: ConfigLineKind::Header })
            } else {
                Ok(LineV { indent: k / 2, identifier: s.subrange(k + 1, e), kind: ConfigLineKind::Folder })
            }
        } else {
            let e = find_from(s, k, '/', '/');
            if e == s.len() {
                Ok(LineV { indent: k / 2, identifier: s.subrange(k, e), kind: ConfigLineKind::File })
            } else {
                Ok(LineV { indent: k / 2, identifier: s.subrange(k, e), kind: ConfigLineKind::Folder })
            }
        }
    }
}

/// The image of a classification result, for stating contracts.
pub open spec fn classified_view(r: Result<ConfigLine, LineErrorKind>) -> Result<
    LineV,
    LineErrorKind,
> {
    match r {
        Ok(cl) => Ok(cl@),
        Err(k) => Err(k),
    }
}

proof fn lemma_indent_from(s: Seq<char>, i: int, e: int)
    requires
        0 <= i <= e <= s.len(),
        forall|t: int| i <= t < e ==> #[trigger] s[t] == ' ',
        e == s.len() || s[e] != ' ',
    ensures
        indent_from(s, i) == e,
    decreases e - i,
{
    if i < e {
        lemma_indent_from(s, i + 1, e);
    }
}

proof fn lemma_find_from(s: Seq<char>, i: int, e: int, c1: char, c2: char)
    requires
        0 <= i <= e <= s.len(),
        forall|t: int| i <= t < e ==> #[trigger] s[t] != c1 && s[t] != c2,
        e == s.len() || s[e] == c1 || s[e] == c2,
    ensures
        find_from(s, i, c1, c2) == e,
    decreases e - i,
{
    if i < e {
        lemma_find_from(s, i + 1, e, c1, c2);
    }
}

impl ConfigLine {
    /// The separator record: a blank line.
    pub fn empty() -> (r: ConfigLine)
        ensures
            r@ == (LineV { indent: 0, identifier: Seq::<char>::empty(), kind: ConfigLineKind::Empty }),
    {
        ConfigLine { indent: 0, identifier: String::new(), kind: ConfigLineKind::Empty }
    }

    /// Classify one raw line of the template grammar.
    pub fn classify(line: &str) -> (r: Result<ConfigLine, LineErrorKind>)
        requires
            line@.len() <= u32::MAX,
        ensures
            classified_view(r) == classify_spec(line@),
    {
        let n: usize = line.unicode_len();

        // Is the line blank?
        let mut j: usize = 0;
        while j < n && (line.get_char(j) == ' ' || line.get_char(j) == '\t')
            invariant
                j <= n,
                n == line@.len(),
                forall|t: int| 0 <= t < j ==> is_space_char(#[trigger] line@[t]),
            decreases n - j,
        {
            j += 1;
        }
        if j == n {
            assert(is_blank_line(line@));
            return Ok(ConfigLine::empty());
        }
        let ghost w: int = j as int;
        assert(!is_space_char(line@[w]));
        assert(!is_blank_line(line@));

        // Count the leading spaces.
        let mut i: usize = 0;
        while i < n && line.get_char(i) == ' '
            invariant
                i <= n,
                n == line@.len(),
                forall|t: int| 0 <= t < i ==> #[trigger] line@[t] == ' ',
        decreases n - i,
        {
            i += 1;
        }
        assert(i < n) by {
            if i == n {
                assert(line@[w] == ' ');
            }
        }
        proof {
            lemma_indent_from(line@, 0, i as int);
        }
        let indent: u32 = (i / 2) as u32;

        let c = line.get_char(i);
        if c == '\t' {
            return Err(LineErrorKind::WrongIndentation);
        }
        if c == '[' {
            // A header line: scan for the closing bracket or a slash.
            let mut e: usize = i + 1;
            while e < n && line.get_char(e) != ']' && line.get_char(e) != '/'
                invariant
                    i + 1 <= e <= n,
                    n == line@.len(),
                    forall|t: int|
                        i + 1 <= t < e ==> #[trigger] line@[t] != ']' && line@[t] != '/',
                decreases n - e,
            {
                e += 1;
            }
            proof {
                lemma_find_from(line@, i + 1, e as int, ']', '/');
            }
            if e == n {
                return Err(LineErrorKind::NoClosingHeader);
            }
            let identifier = line.substring_char(i + 1, e).to_owned();
            if line.get_char(e) == ']' {
                Ok(ConfigLine { indent, identifier, kind: ConfigLineKind::Header })
            } else {
                Ok(ConfigLine { indent, identifier, kind: ConfigLineKind::Folder })
            }
        } else {
            // A file or folder line: scan for a slash.
            let mut e: usize = i;
            while e < n && line.get_char(e) != '/'
                invariant
                    i <= e <= n,
                    n == line@.len(),
                    forall|t: int| i <= t < e ==> #[trigger] line@[t] != '/',
                decreases n - e,
            {
                e += 1;
            }
            proof {
                lemma_find_from(line@, i as int, e as int, '/', '/');
            }
            let identifier = line.substring_char(i, e).to_owned();
            if e == n {
                Ok(ConfigLine { indent, identifier, kind: ConfigLineKind::File })
            } else {
                Ok(ConfigLine { indent, identifier, kind: ConfigLineKind::Folder })
            }
        }
    }
}

} // verus!
