use vstd::prelude::*;
use vstd::utf8::{decode_utf8, encode_utf8_decode_utf8, valid_utf8};
use vstd::string::StringSliceAdditionalSpecFns;

use crate::paths::{join_path, joined};
use crate::store::strings_view;

verus! {

/// Where an import declaration stands: 1-based line, 0-based column.
#[derive(Clone, Copy, Debug, PartialEq, Eq, Structural, PartialOrd, Ord, Hash)]
pub struct Position {
    pub row: usize,
    pub column: usize,
}

/// One import declaration met during a scan: the module's name, the file it
/// stands in, and where.
#[derive(Debug)]
pub struct FoundImport {
    pub import: String,
    pub path: String,
    pub position: Position,
}

impl View for FoundImport {
    type V = (Seq<char>, Seq<char>, Position);

    open spec fn view(&self) -> (Seq<char>, Seq<char>, Position) {
        (self.import@, self.path@, self.position)
    }
}

pub open spec fn found_views(v: Seq<FoundImport>) -> Seq<(Seq<char>, Seq<char>, Position)> {
    v.map_values(|f: FoundImport| f@)
}

/// What stops the scan of a file or of a whole tree.
#[derive(Debug, Clone, Copy, PartialEq, Eq, Structural)]
pub enum ScanError {
    /// A file's content is not UTF-8 text.
    NotText,
    /// The roots declare no source directory to look in.
    NoSourceDirectories,
}

/// The records that a file at `path` yields for the declarations of `text`.
pub open spec fn file_records(path: Seq<char>, text: Seq<char>) -> Seq<
    (Seq<char>, Seq<char>, Position),
> {
    extract_spec(text).map_values(|d: (Seq<char>, Position)| (d.0, path, d.1))
}

/// The source directories that the project roots declare, root by root:
/// `declared[i]` lists those of `roots[i]`, relative to it.
pub open spec fn source_dirs(roots: Seq<Seq<char>>, declared: Seq<Seq<Seq<char>>>) -> Seq<
    Seq<char>,
>
    decreases roots.len(),
{
    if roots.len() == 0 || declared.len() == 0 {
        Seq::empty()
    } else {
        source_dirs(roots.drop_last(), declared.drop_last()) + declared.last().map_values(
            |d: Seq<char>| joined(roots.last(), d),
        )
    }
}

pub open spec fn nested_view(v: Seq<Vec<String>>) -> Seq<Seq<Seq<char>>> {
    v.map_values(|d: Vec<String>| strings_view(d@))
}

/// The project roots that a scan starts from.
pub struct ImportFinder {
    roots: Vec<String>,
}

impl ImportFinder {
    pub closed spec fn roots_view(&self) -> Seq<Seq<char>> {
        strings_view(self.roots@)
    }

    pub fn new(roots: Vec<String>) -> (r: ImportFinder)
        ensures
            r.roots_view() == strings_view(roots@),
    {
        ImportFinder { roots }
    }

    pub fn roots(&self) -> (r: &Vec<String>)
        ensures
            strings_view(r@) == self.roots_view(),
    {
        &self.roots
    }

    /// Each source directory that a root declares, taken from that root.
    pub fn source_directories(&self, declared: &Vec<Vec<String>>) -> (r: Vec<String>)
        requires
            declared@.len() == self.roots_view().len(),
        ensures
            strings_view(r@) == source_dirs(self.roots_view(), nested_view(declared@)),
    {
        let ghost roots = self.roots_view();
        let ghost decl = nested_view(declared@);
        let mut out: Vec<String> = Vec::new();
        let mut i: usize = 0;
        while i < self.roots.len()
            invariant
                i <= self.roots@.len(),
                declared@.len() == self.roots@.len(),
                roots == self.roots_view(),
                decl == nested_view(declared@),
                strings_view(out@) == source_dirs(roots.subrange(0, i as int), decl.subrange(0, i as int)),
            decreases self.roots@.len() - i,
        {
            let ghost before = strings_view(out@);
            let dirs = &declared[i];
            let ghost add = decl[i as int].map_values(|d: Seq<char>| joined(roots[i as int], d));
            assert(decl[i as int] == strings_view(dirs@));
            assert(add.len() == dirs@.len());
            let mut j: usize = 0;
            while j < dirs.len()
                invariant
                    i < self.roots@.len(),
                    declared@.len() == self.roots@.len(),
                    j <= dirs@.len(),
                    dirs@ == declared@[i as int]@,
                    decl == nested_view(declared@),
                    roots == self.roots_view(),
                    add == decl[i as int].map_values(|d: Seq<char>| joined(roots[i as int], d)),
                    strings_view(out@) == before + add.subrange(0, j as int),
                decreases dirs@.len() - j,
            {
                let ghost mid = strings_view(out@);
                let p = join_path(self.roots[i].as_str(), dirs[j].as_str());
                out.push(p);
                proof {
                    assert(add[j as int] == joined(roots[i as int], dirs@[j as int]@));
                    assert(strings_view(out@) =~= mid.push(add[j as int]));
                    assert(add.subrange(0, j + 1) =~= add.subrange(0, j as int).push(add[j as int]));
                }
                j = j + 1;
            }
            proof {
                assert(add.subrange(0, dirs@.len() as int) =~= add);
                assert(roots.subrange(0, i + 1).drop_last() =~= roots.subrange(0, i as int));
                assert(decl.subrange(0, i + 1).drop_last() =~= decl.subrange(0, i as int));
                assert(roots.subrange(0, i + 1).last() == roots[i as int]);
                assert(decl.subrange(0, i + 1).last() == decl[i as int]);
            }
            i = i + 1;
        }
        proof {
            assert(roots.subrange(0, roots.len() as int) =~= roots);
            assert(decl.subrange(0, decl.len() as int) =~= decl);
        }
        out
    }
}

/// The directories a walk starts from; a scan with none has nothing to look
/// at, which is an error.
pub fn directories_to_walk(dirs: Vec<String>) -> (r: Result<Vec<String>, ScanError>)
    ensures
        match r {
            Ok(v) => v@ == dirs@ && dirs@.len() > 0,
            Err(e) => e == ScanError::NoSourceDirectories && dirs@.len() == 0,
        },
{
    if dirs.len() == 0 {
        Err(ScanError::NoSourceDirectories)
    } else {
        Ok(dirs)
    }
}

/// Relies on std::str::from_utf8: the bytes are read as text exactly when
/// they are valid UTF-8, and the text is made of those very bytes.
#[verifier::external_body]
fn utf8_text(bytes: &[u8]) -> (r: Option<&str>)
    ensures
        r is Some <==> valid_utf8(bytes@),
        r matches Some(t) ==> t.spec_bytes() == bytes@,
{
    std::str::from_utf8(bytes).ok()
}

/// Characters that may continue a qualified module name.
pub open spec fn is_name_char(c: char) -> bool {
    ('A' <= c && c <= 'Z') || ('a' <= c && c <= 'z') || ('0' <= c && c <= '9') || c == '_' || c
        == '.'
}

pub open spec fn is_upper(c: char) -> bool {
    'A' <= c && c <= 'Z'
}

/// Length of the run of spaces in `line` that starts at `i`.
pub open spec fn space_run(line: Seq<char>, i: int) -> nat
    decreases line.len() - i,
{
    if 0 <= i < line.len() && line[i] == ' ' {
        1 + space_run(line, i + 1)
    } else {
        0
    }
}

/// Length of the run of name characters in `line` that starts at `i`.
pub open spec fn name_run(line: Seq<char>, i: int) -> nat
    decreases line.len() - i,
{
    if 0 <= i < line.len() && is_name_char(line[i]) {
        1 + name_run(line, i + 1)
    } else {
        0
    }
}

pub open spec fn import_keyword() -> Seq<char> {
    seq!['i', 'm', 'p', 'o', 'r', 't']
}

/// Characters that may indent a line.
pub open spec fn is_indent(c: char) -> bool {
    c == ' ' || c == '\t'
}

/// Length of the indentation of `line` from `i` on.
pub open spec fn indent_run(line: Seq<char>, i: int) -> nat
    decreases line.len() - i,
{
    if 0 <= i < line.len() && is_indent(line[i]) {
        1 + indent_run(line, i + 1)
    } else {
        0
    }
}

/// The import declaration that a line opens, if any: the column of the module
/// name and the name itself. A declaration is, after any indentation, the
/// keyword `import`, one or more spaces, then a capitalised qualified name.
pub open spec fn import_decl(line: Seq<char>) -> Option<(int, Seq<char>)> {
    let start: int = indent_run(line, 0) as int;
    let col: int = start + 6 + space_run(line, start + 6) as int;
    if line.len() >= start + 6 && line.subrange(start, start + 6) == import_keyword()
        && space_run(line, start + 6) > 0 && col < line.len() && is_upper(line[col]) {
        Some((col, line.subrange(col, col + 1 + name_run(line, col + 1) as int)))
    } else {
        None
    }
}

/// Number of characters from `i` up to the next newline or the end of `s`.
pub open spec fn line_len(s: Seq<char>, i: int) -> nat
    decreases s.len() - i,
{
    if 0 <= i < s.len() && s[i] != '\n' {
        1 + line_len(s, i + 1)
    } else {
        0
    }
}

/// A line without the carriage return of a `\r\n` ending.
pub open spec fn strip_cr(l: Seq<char>) -> Seq<char> {
    if l.len() > 0 && l.last() == '\r' {
        l.drop_last()
    } else {
        l
    }
}

/// The lines of `s` from index `i` on. A line ends at `\n` or at `\r\n`,
/// neither of which it keeps; the last line needs no ending, and text that
/// ends with a line ending has no empty line after it.
pub open spec fn lines_from(s: Seq<char>, i: int) -> Seq<Seq<char>>
    decreases s.len() - i,
{
    if i < 0 || i >= s.len() {
        seq![]
    } else {
        let k = i + line_len(s, i);
        if k >= s.len() {
            seq![s.subrange(i, s.len() as int)]
        } else {
            seq![strip_cr(s.subrange(i, k))] + lines_from(s, k + 1)
        }
    }
}

pub open spec fn lines_of(s: Seq<char>) -> Seq<Seq<char>> {
    lines_from(s, 0)
}

/// The declarations found in `lines`, the first of which is line `row + 1`.
/// Every line is looked at: blank lines, comments and continued `exposing`
/// lists may stand between imports, so no line ends the import block early.
pub open spec fn scan_lines(lines: Seq<Seq<char>>, row: nat) -> Seq<(Seq<char>, Position)>
    decreases lines.len(),
{
    if lines.len() == 0 {
        seq![]
    } else {
        match import_decl(lines[0]) {
            Some((col, name)) => seq![(name, Position { row: (row + 1) as usize, column: col as usize })]
                + scan_lines(lines.drop_first(), row + 1),
            None => scan_lines(lines.drop_first(), row + 1),
        }
    }
}

/// The import declarations of a text, in order, each with its position.
pub open spec fn extract_spec(text: Seq<char>) -> Seq<(Seq<char>, Position)> {
    scan_lines(lines_of(text), 0)
}

pub open spec fn decls_view(v: Seq<(String, Position)>) -> Seq<(Seq<char>, Position)> {
    v.map_values(|d: (String, Position)| (d.0@, d.1))
}

/// The characters of a text, one by one.
fn chars_of(text: &str) -> (r: Vec<char>)
    ensures
        r@ == text@,
{
    let mut out: Vec<char> = Vec::new();
    for c in it: text.chars()
        invariant
            it.seq() == text@,
            out@ == it.seq().subrange(0, it.index() as int),
    {
        out.push(c);
    }
    out
}

proof fn lemma_line_len_end(s: Seq<char>, i: int)
    requires
        0 <= i <= s.len(),
        i == s.len() || s[i] == '\n',
    ensures
        line_len(s, i) == 0,
{
}

proof fn lemma_line_len_step(s: Seq<char>, i: int)
    requires
        0 <= i < s.len(),
        s[i] != '\n',
    ensures
        line_len(s, i) == 1 + line_len(s, i + 1),
{
}

#[verifier::external_type_specification]
#[verifier::external_body]
pub struct ExRegex(regex::Regex);

#[verifier::external_type_specification]
#[verifier::external_body]
pub struct ExRegexError(regex::Error);

/// The pattern of an import declaration, as the regex crate reads it.
pub const IMPORT_PATTERN: &'static str = "^[ \\t]*import +([A-Z][A-Za-z0-9_\\.]*)";

/// Relies on regex::Regex::new: compiles a pattern, or reports why it cannot.
/// `IMPORT_PATTERN` is valid syntax and far below the size limits, so it
/// compiles.
#[verifier::external_body]
fn compile_regex(pattern: &str) -> (r: Result<regex::Regex, regex::Error>)
    ensures
        pattern@ == IMPORT_PATTERN@ ==> r is Ok,
{
    regex::Regex::new(pattern)
}

/// The compiled import pattern. Its only constructor compiles
/// `IMPORT_PATTERN`, so every value holds that pattern.
pub struct ImportPattern {
    re: regex::Regex,
}

impl ImportPattern {
    /// Compiles the import pattern once; the result is read-only and may be
    /// shared by every worker of a scan.
    pub fn new() -> (r: Option<ImportPattern>)
        ensures
            r is Some,
    {
        match compile_regex(IMPORT_PATTERN) {
            Ok(re) => Some(ImportPattern { re }),
            Err(_) => None,
        }
    }

    /// Relies on regex::Regex::captures with `IMPORT_PATTERN` (the pattern
    /// that every `ImportPattern` holds): the pattern is anchored at the start,
    /// so group 1 is the capitalised name after the indentation, `import` and
    /// its spaces, taken as far as name characters go. All that precedes it is
    /// ASCII, so its byte offset is also its character offset.
    #[verifier::external_body]
    fn captures(&self, line: &Vec<char>) -> (r: Option<(usize, String)>)
        ensures
            match r {
                Some((col, name)) => import_decl(line@) == Some((col as int, name@)),
                None => import_decl(line@) is None,
            },
    {
        let text: String = line.iter().collect();
        self.re.captures(&text).and_then(|c| c.get(1)).map(|m| (m.start(), m.as_str().to_string()))
    }

    /// The import declarations of a text: each with the module's name and
    /// where the name starts.
    pub fn extract_text(&self, text: &str) -> (r: Vec<(String, Position)>)
        ensures
            decls_view(r@) == extract_spec(text@),
    {
        let chars = chars_of(text);
        let n = chars.len();
        let mut out: Vec<(String, Position)> = Vec::new();
        let mut start: usize = 0;
        let mut row: usize = 0;
        while start < n
            invariant
                n == chars@.len(),
                chars@ == text@,
                start <= n,
                row <= start,
                extract_spec(text@) == decls_view(out@) + scan_lines(
                    lines_from(chars@, start as int),
                    row as nat,
                ),
            decreases n - start,
        {
            let mut k: usize = start;
            while k < n && chars[k] != '\n'
                invariant
                    n == chars@.len(),
                    start <= k <= n,
                    line_len(chars@, start as int) == (k - start) + line_len(chars@, k as int),
                decreases n - k,
            {
                proof {
                    lemma_line_len_step(chars@, k as int);
                }
                k = k + 1;
            }
            proof {
                lemma_line_len_end(chars@, k as int);
            }
            let end: usize = if k < n && k > start && chars[k - 1] == '\r' {
                k - 1
            } else {
                k
            };
            let mut line: Vec<char> = Vec::new();
            let mut j: usize = start;
            while j < end
                invariant
                    start <= j <= end <= k <= n,
                    n == chars@.len(),
                    line@ == chars@.subrange(start as int, j as int),
                decreases end - j,
            {
                line.push(chars[j]);
                j = j + 1;
            }
            let ghost lines = lines_from(chars@, start as int);
            proof {
                if k < n {
                    assert(line@ == strip_cr(chars@.subrange(start as int, k as int)));
                    assert(lines == seq![line@] + lines_from(chars@, k + 1));
                } else {
                    assert(lines == seq![line@]);
                    assert(lines_from(chars@, n as int) =~= Seq::<Seq<char>>::empty());
                }
                assert(lines[0] == line@);
                assert(lines.drop_first() == lines_from(chars@, if k < n { k + 1 } else { n as int }));
            }
            let ghost rest = lines.drop_first();
            let ghost before = out@;
            match self.captures(&line) {
                Some((col, name)) => {
                    let pos = Position { row: row + 1, column: col };
                    out.push((name, pos));
                    proof {
                        assert(scan_lines(lines, row as nat) == seq![(name@, pos)]
                            + scan_lines(rest, (row + 1) as nat));
                        assert(decls_view(out@) =~= decls_view(before) + seq![(name@, pos)]);
                        assert(decls_view(before) + (seq![(name@, pos)] + scan_lines(
                            rest,
                            (row + 1) as nat,
                        )) =~= decls_view(out@) + scan_lines(rest, (row + 1) as nat));
                    }
                },
                None => {
                    proof {
                        assert(scan_lines(lines, row as nat) == scan_lines(rest, (row + 1) as nat));
                    }
                },
            }
            row = row + 1;
            start = if k < n {
                k + 1
            } else {
                n
            };
        }
        proof {
            assert(lines_from(chars@, start as int) =~= Seq::<Seq<char>>::empty());
            assert(decls_view(out@) + Seq::<(Seq<char>, Position)>::empty() =~= decls_view(out@));
        }
        out
    }

    /// The imports declared in the file at `path` whose content is
    /// `contents`; content that is not UTF-8 text is an error for the file.
    pub fn find_imports(&self, path: &String, contents: &[u8]) -> (r: Result<
        Vec<FoundImport>,
        ScanError,
    >)
        ensures
            r is Err <==> !valid_utf8(contents@),
            r matches Err(e) ==> e == ScanError::NotText,
            r matches Ok(v) ==> found_views(v@) == file_records(path@, decode_utf8(contents@)),
    {
        let text = match utf8_text(contents) {
            Some(t) => t,
            None => {
                return Err(ScanError::NotText);
            },
        };
        proof {
            encode_utf8_decode_utf8(text@);
        }
        let decls = self.extract_text(text);
        let mut out: Vec<FoundImport> = Vec::new();
        for i in 0..decls.len()
            invariant
                decls_view(decls@) == extract_spec(text@),
                found_views(out@) == file_records(path@, text@).subrange(0, i as int),
        {
            let name = decls[i].0.clone();
            let ghost before = out@;
            out.push(FoundImport { import: name, path: path.clone(), position: decls[i].1 });
            proof {
                assert(decls_view(decls@)[i as int] == (decls@[i as int].0@, decls@[i as int].1));
                assert(found_views(out@) =~= found_views(before).push(out@[i as int]@));
                assert(found_views(out@) =~= file_records(path@, text@).subrange(0, i + 1));
            }
        }
        proof {
            assert(file_records(path@, text@).subrange(0, decls.len() as int) =~= file_records(
                path@,
                text@,
            ));
        }
        Ok(out)
    }
}

} // verus!
