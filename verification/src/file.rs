use vstd::prelude::*;

verus! {

/// The whitespace characters an include directive may carry around its
/// parts: the ASCII blank characters. Exotic Unicode whitespace is not
/// treated as blank.
pub open spec fn is_space(c: char) -> bool {
    c == ' ' || c == '\t' || c == '\u{B}' || c == '\u{C}' || c == '\r'
}

/// Index of the first newline of `s` at or after `from`, or the length of
/// `s` when there is none.
pub open spec fn first_newline(s: Seq<char>, from: int) -> int
    decreases s.len() - from,
{
    if from < 0 || from >= s.len() {
        s.len() as int
    } else if s[from] == '\n' {
        from
    } else {
        first_newline(s, from + 1)
    }
}

/// Index of the first non-blank character of `s` at or after `from`, or the
/// length of `s` when there is none.
pub open spec fn skip_spaces(s: Seq<char>, from: int) -> int
    decreases s.len() - from,
{
    if from < 0 || from >= s.len() {
        s.len() as int
    } else if is_space(s[from]) {
        skip_spaces(s, from + 1)
    } else {
        from
    }
}

/// A line, as handed out by line splitting: a carriage return right before
/// the newline is not part of the line.
pub open spec fn strip_cr(line: Seq<char>) -> Seq<char> {
    if line.len() > 0 && line.last() == '\r' {
        line.drop_last()
    } else {
        line
    }
}

/// The lines of a text: split at each newline, dropping one carriage return
/// right before it; a last line without a final newline counts, a final
/// newline adds no empty line.
pub open spec fn split_lines(s: Seq<char>) -> Seq<Seq<char>>
    decreases s.len(),
{
    if s.len() == 0 {
        Seq::empty()
    } else {
        let i = first_newline(s, 0);
        if 0 <= i && i < s.len() {
            seq![strip_cr(s.subrange(0, i))] + split_lines(s.subrange(i + 1, s.len() as int))
        } else {
            seq![s]
        }
    }
}

/// A line whose first non-blank characters open a line or block comment is
/// ignored entirely.
pub open spec fn is_comment_line(line: Seq<char>) -> bool {
    let a = skip_spaces(line, 0);
    a + 2 <= line.len() && line[a] == '/' && (line[a + 1] == '/' || line[a + 1] == '*')
}

pub open spec fn is_open_delim(c: char) -> bool {
    c == '<' || c == '"'
}

pub open spec fn is_close_delim(c: char) -> bool {
    c == '>' || c == '"'
}

/// The include keyword, spelled out, at position `at` of the line.
pub open spec fn matches_keyword(line: Seq<char>, at: int) -> bool {
    &&& at + 8 <= line.len()
    &&& line[at] == '#'
    &&& line[at + 1] == 'i'
    &&& line[at + 2] == 'n'
    &&& line[at + 3] == 'c'
    &&& line[at + 4] == 'l'
    &&& line[at + 5] == 'u'
    &&& line[at + 6] == 'd'
    &&& line[at + 7] == 'e'
}

/// What may follow the closing delimiter: nothing, or blanks and then a
/// trailing line comment.
pub open spec fn tail_ok(line: Seq<char>, from: int) -> bool {
    ||| from == line.len()
    ||| {
        let j = skip_spaces(line, from);
        j + 2 <= line.len() && line[j] == '/' && line[j + 1] == '/'
    }
}

/// The line opens an include directive: blanks, the keyword, blanks, then an
/// opening delimiter.
pub open spec fn has_include_prefix(line: Seq<char>) -> bool {
    let a = skip_spaces(line, 0);
    &&& matches_keyword(line, a)
    &&& {
        let d = skip_spaces(line, a + 8);
        d < line.len() && is_open_delim(line[d])
    }
}

/// Index right after the opening delimiter: where the referenced name starts.
pub open spec fn ref_start(line: Seq<char>) -> int {
    skip_spaces(line, skip_spaces(line, 0) + 8) + 1
}

/// First position at or after `from` that closes the reference: a closing
/// delimiter followed by an acceptable tail. The reference is the shortest
/// candidate, matching a reluctant capture.
pub open spec fn first_capture_end(line: Seq<char>, from: int) -> int
    decreases line.len() - from,
{
    if from < 0 || from >= line.len() {
        line.len() as int
    } else if is_close_delim(line[from]) && tail_ok(line, from + 1) {
        from
    } else {
        first_capture_end(line, from + 1)
    }
}

/// The module name one line references, if it is an include directive:
/// blanks, `#include`, blanks, an opening `<` or `"`, the shortest name
/// closed by `>` or `"` whose tail is empty or a trailing comment. A comment
/// line references nothing.
pub open spec fn line_ref(line: Seq<char>) -> Option<Seq<char>> {
    if is_comment_line(line) {
        None
    } else if has_include_prefix(line) {
        let s = ref_start(line);
        let k = first_capture_end(line, s);
        if k < line.len() {
            Some(line.subrange(s, k))
        } else {
            None
        }
    } else {
        None
    }
}

/// The referenced names of a list of lines, in order.
pub open spec fn refs_of_lines(lines: Seq<Seq<char>>) -> Seq<Seq<char>>
    decreases lines.len(),
{
    if lines.len() == 0 {
        Seq::empty()
    } else {
        refs_of_lines(lines.drop_last()) + match line_ref(lines.last()) {
            Some(r) => seq![r],
            None => Seq::empty(),
        }
    }
}

/// The referenced names of a whole text: its lines' references, in line
/// order, duplicates kept.
pub open spec fn refs_of_content(s: Seq<char>) -> Seq<Seq<char>> {
    refs_of_lines(split_lines(s))
}

proof fn lemma_first_newline_unique(s: Seq<char>, from: int, r: int)
    requires
        0 <= from <= s.len(),
        from <= r <= s.len(),
        forall|m: int| from <= m < r ==> s[m] != '\n',
        r < s.len() ==> s[r] == '\n',
    ensures
        r == first_newline(s, from),
    decreases s.len() - from,
{
    if from < s.len() && s[from] != '\n' {
        lemma_first_newline_unique(s, from + 1, r);
    }
}

proof fn lemma_skip_spaces_unique(s: Seq<char>, from: int, r: int)
    requires
        0 <= from <= s.len(),
        from <= r <= s.len(),
        forall|m: int| from <= m < r ==> is_space(s[m]),
        r < s.len() ==> !is_space(s[r]),
    ensures
        r == skip_spaces(s, from),
    decreases s.len() - from,
{
    if from < s.len() && is_space(s[from]) {
        lemma_skip_spaces_unique(s, from + 1, r);
    }
}

proof fn lemma_skip_spaces_bounds(s: Seq<char>, from: int)
    requires
        0 <= from <= s.len(),
    ensures
        from <= skip_spaces(s, from) <= s.len(),
    decreases s.len() - from,
{
    if from < s.len() && is_space(s[from]) {
        lemma_skip_spaces_bounds(s, from + 1);
    }
}

proof fn lemma_first_capture_end_unique(s: Seq<char>, from: int, r: int)
    requires
        0 <= from <= s.len(),
        from <= r <= s.len(),
        forall|m: int| from <= m < r ==> !(is_close_delim(s[m]) && tail_ok(s, m + 1)),
        r < s.len() ==> is_close_delim(s[r]) && tail_ok(s, r + 1),
    ensures
        r == first_capture_end(s, from),
    decreases s.len() - from,
{
    if from < s.len() && !(is_close_delim(s[from]) && tail_ok(s, from + 1)) {
        lemma_first_capture_end_unique(s, from + 1, r);
    }
}

fn is_space_exec(c: char) -> (r: bool)
    ensures
        r == is_space(c),
{
    c == ' ' || c == '\t' || c == '\u{B}' || c == '\u{C}' || c == '\r'
}

/// Index of the first non-blank character of `line` at or after `from`.
fn skip_spaces_exec(line: &str, from: usize, n: usize) -> (r: usize)
    requires
        n == line@.len(),
        from <= n,
    ensures
        r as int == skip_spaces(line@, from as int),
        from <= r <= n,
{
    let mut a = from;
    while a < n && is_space_exec(line.get_char(a))
        invariant
            n == line@.len(),
            from <= a <= n,
            forall|m: int| from <= m < a ==> is_space(line@[m]),
        decreases n - a,
    {
        a = a + 1;
    }
    proof {
        lemma_skip_spaces_unique(line@, from as int, a as int);
    }
    a
}

/// Whether only blanks, possibly followed by a trailing line comment, stand
/// at or after `from`.
fn tail_ok_exec(line: &str, from: usize, n: usize) -> (r: bool)
    requires
        n == line@.len(),
        from <= n,
    ensures
        r == tail_ok(line@, from as int),
{
    if from == n {
        return true;
    }
    let j = skip_spaces_exec(line, from, n);
    j < n && j + 1 < n && line.get_char(j) == '/' && line.get_char(j + 1) == '/'
}

/// Parses one line as an include directive, returning the referenced module
/// name when the line is one.
fn parse_include_line(line: &str) -> (r: Option<String>)
    ensures
        r is Some <==> line_ref(line@) is Some,
        r matches Some(x) ==> line_ref(line@) == Some(x@),
{
    let n = line.unicode_len();
    let a = skip_spaces_exec(line, 0, n);
    if a < n && a + 1 < n && line.get_char(a) == '/' && (line.get_char(a + 1) == '/'
        || line.get_char(a + 1) == '*') {
        proof {
            assert(is_comment_line(line@));
        }
        return None;
    }
    proof {
        assert(!is_comment_line(line@));
    }
    if n - a < 8 {
        proof {
            assert(!matches_keyword(line@, skip_spaces(line@, 0)));
        }
        return None;
    }
    if !(line.get_char(a) == '#' && line.get_char(a + 1) == 'i' && line.get_char(a + 2) == 'n'
        && line.get_char(a + 3) == 'c' && line.get_char(a + 4) == 'l' && line.get_char(a + 5)
        == 'u' && line.get_char(a + 6) == 'd' && line.get_char(a + 7) == 'e') {
        proof {
            assert(!matches_keyword(line@, skip_spaces(line@, 0)));
        }
        return None;
    }
    let d = skip_spaces_exec(line, a + 8, n);
    if d >= n || !(line.get_char(d) == '<' || line.get_char(d) == '"') {
        proof {
            assert(!has_include_prefix(line@));
        }
        return None;
    }
    proof {
        assert(has_include_prefix(line@));
    }
    let s = d + 1;
    let mut k = s;
    while k < n
        invariant
            n == line@.len(),
            s <= k <= n,
            s as int == ref_start(line@),
            has_include_prefix(line@),
            !is_comment_line(line@),
            forall|m: int|
                s <= m < k ==> !(is_close_delim(line@[m]) && tail_ok(line@, m + 1)),
        decreases n - k,
    {
        let c = line.get_char(k);
        if c == '>' || c == '"' {
            if tail_ok_exec(line, k + 1, n) {
                proof {
                    lemma_first_capture_end_unique(line@, s as int, k as int);
                }
                let cap = line.substring_char(s, k);
                return Some(cap.to_owned());
            }
        }
        k = k + 1;
    }
    proof {
        lemma_first_capture_end_unique(line@, s as int, n as int);
    }
    None
}

/// Splits a text into its lines, as borrowed slices.
fn split_content_lines(s: &str) -> (r: Vec<&str>)
    ensures
        r@.map_values(|t: &str| t@) == split_lines(s@),
{
    let n = s.unicode_len();
    let mut out: Vec<&str> = Vec::new();
    let mut start: usize = 0;
    let mut i: usize = 0;
    proof {
        assert(s@.subrange(0, n as int) =~= s@);
        assert(out@.map_values(|t: &str| t@) =~= Seq::<Seq<char>>::empty());
        assert(Seq::<Seq<char>>::empty() + split_lines(s@) =~= split_lines(s@));
    }
    while i < n
        invariant
            n == s@.len(),
            start <= i <= n,
            forall|m: int| start <= m < i ==> s@[m] != '\n',
            split_lines(s@) == out@.map_values(|t: &str| t@) + split_lines(
                s@.subrange(start as int, n as int),
            ),
        decreases n - i,
    {
        if s.get_char(i) == '\n' {
            let ghost rest = s@.subrange(start as int, n as int);
            let end: usize = if i > start && s.get_char(i - 1) == '\r' {
                i - 1
            } else {
                i
            };
            let line = s.substring_char(start, end);
            let ghost out0 = out@;
            out.push(line);
            proof {
                let m = i - start;
                lemma_first_newline_unique(rest, 0, m as int);
                assert(rest.len() > 0);
                assert(first_newline(rest, 0) == m as int);
                assert(rest.subrange(0, m as int) =~= s@.subrange(start as int, i as int));
                assert(strip_cr(rest.subrange(0, m as int)) =~= line@) by {
                    if i > start && s@[i - 1] == '\r' {
                        assert(rest.subrange(0, m as int).last() == '\r');
                        assert(rest.subrange(0, m as int).drop_last() =~= s@.subrange(
                            start as int,
                            i - 1,
                        ));
                    } else {
                        if m > 0 {
                            assert(rest.subrange(0, m as int).last() == s@[i - 1]);
                        }
                    }
                }
                assert(rest.subrange(m + 1, rest.len() as int) =~= s@.subrange(
                    i + 1,
                    n as int,
                ));
                assert(split_lines(rest) == seq![line@] + split_lines(
                    s@.subrange(i + 1, n as int),
                ));
                assert(out@.map_values(|t: &str| t@) =~= out0.map_values(|t: &str| t@) + seq![
                    line@,
                ]);
                assert(split_lines(s@) == out@.map_values(|t: &str| t@) + split_lines(
                    s@.subrange(i + 1, n as int),
                ));
            }
            start = i + 1;
        }
        i = i + 1;
    }
    proof {
        let rest = s@.subrange(start as int, n as int);
        if start < n {
            lemma_first_newline_unique(rest, 0, rest.len() as int);
            assert(split_lines(rest) =~= seq![rest]);
        } else {
            assert(rest.len() == 0);
            assert(split_lines(rest) =~= Seq::<Seq<char>>::empty());
        }
    }
    if start < n {
        let line = s.substring_char(start, n);
        proof {
            assert(line@ =~= s@.subrange(start as int, n as int));
        }
        let ghost out0 = out@;
        out.push(line);
        proof {
            assert(out@.map_values(|t: &str| t@) =~= out0.map_values(|t: &str| t@) + seq![line@]);
        }
    }
    proof {
        assert(out@.map_values(|t: &str| t@) =~= split_lines(s@));
    }
    out
}

/// One scanned source unit: its identity (the scan path) and the raw list of
/// module names it references, in the order they appeared in the text.
pub struct File {
    name: String,
    used_modules: Vec<String>,
}

impl File {
    /// The unit's identity, as a sequence of characters.
    pub closed spec fn id(self) -> Seq<char> {
        self.name@
    }

    /// The raw references, in order, duplicates permitted.
    pub closed spec fn refs(self) -> Seq<Seq<char>> {
        self.used_modules@.map_values(|m: String| m@)
    }

    /// Builds a unit from its scan path and its raw text, extracting the
    /// referenced module names from the text's include directives.
    pub fn make(name: &str, file_content: &str) -> (r: Result<File, &'static str>)
        ensures
            r is Ok,
            r matches Ok(f) ==> f.id() == name@ && f.refs() == refs_of_content(file_content@),
    {
        let used_modules = File::make_used_modules(file_content);
        let f = File { name: name.to_owned(), used_modules };
        proof {
            assert(f.refs() == refs_of_content(file_content@));
        }
        Ok(f)
    }

    fn make_used_modules(file_content: &str) -> (r: Vec<String>)
        ensures
            r@.map_values(|m: String| m@) == refs_of_content(file_content@),
    {
        let lines = split_content_lines(file_content);
        let n = lines.len();
        let mut out: Vec<String> = Vec::new();
        let mut i: usize = 0;
        while i < n
            invariant
                n == lines@.len(),
                i <= n,
                lines@.map_values(|t: &str| t@) == split_lines(file_content@),
                out@.map_values(|m: String| m@) == refs_of_lines(
                    split_lines(file_content@).take(i as int),
                ),
            decreases n - i,
        {
            let ghost pre = out@;
            let ghost sl = split_lines(file_content@);
            match parse_include_line(lines[i]) {
                Some(x) => {
                    out.push(x);
                },
                None => {},
            }
            proof {
                assert(sl.take(i + 1).drop_last() =~= sl.take(i as int));
                assert(sl.take(i + 1).last() == sl[i as int]);
                assert(sl[i as int] == lines@[i as int]@);
                assert(refs_of_lines(sl.take(i + 1)) == refs_of_lines(sl.take(i as int)) + match
                    line_ref(sl[i as int]) {
                    Some(rr) => seq![rr],
                    None => Seq::<Seq<char>>::empty(),
                });
                assert(out@.map_values(|m: String| m@) =~= refs_of_lines(sl.take(i + 1)));
            }
            i = i + 1;
        }
        proof {
            assert(split_lines(file_content@).take(n as int) =~= split_lines(file_content@));
        }
        out
    }

    pub fn get_name(&self) -> (r: &str)
        ensures
            r@ == self.id(),
    {
        self.name.as_str()
    }

    pub fn get_used_modules(&self) -> (r: &Vec<String>)
        ensures
            r@.map_values(|m: String| m@) == self.refs(),
            r@.len() == self.refs().len(),
    {
        &self.used_modules
    }
}

} // verus!
