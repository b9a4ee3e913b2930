//! A small blog index generator.
//!
//! Every article starts with a front-matter header between two `---` lines
//! (`Category:`, `title:`, `tags:` ...). The library reads those headers one
//! line at a time, fills in defaults, and renders the category and tag tables
//! of contents of the README from the articles it collected.

pub mod category;
pub mod tags;
pub mod text;

use vstd::prelude::*;
use vstd::utf8::*;
use vstd::string::StringSliceAdditionalSpecFns;
use crate::text::{
    decimal_value, is_digit, join_on, lemma_decimal, lemma_join_split,
    ascii_lowercase, ascii_lower, chars_of, decimal, push_decimal, split_on, split_str, str_eq, trim,
    trim_str,
};

verus! {

broadcast use vstd::utf8::encode_utf8_valid_utf8, vstd::utf8::encode_utf8_decode_utf8;

/// The directory that holds the blog sources; every article path starts with it.
pub const DIR: &'static str = "/home/shen/Core/Vn/";

// ---------------------------------------------------------------------------
// Articles
// ---------------------------------------------------------------------------

/// One article of the blog, with what its header said.
pub struct Article {
    pub path: String,
    pub title: String,
    pub is_draft: bool,
    pub is_recent: bool,
    pub tags: Vec<String>,
    pub category: String,
    pub date: String,
}

/// The mathematical view of an [`Article`].
pub struct ArticleView {
    pub path: Seq<char>,
    pub title: Seq<char>,
    pub is_draft: bool,
    pub is_recent: bool,
    pub tags: Seq<Seq<char>>,
    pub category: Seq<char>,
    pub date: Seq<char>,
}

pub open spec fn strings_view(v: Seq<String>) -> Seq<Seq<char>> {
    v.map_values(|t: String| t@)
}

impl View for Article {
    type V = ArticleView;

    open spec fn view(&self) -> ArticleView {
        ArticleView {
            path: self.path@,
            title: self.title@,
            is_draft: self.is_draft,
            is_recent: self.is_recent,
            tags: strings_view(self.tags@),
            category: self.category@,
            date: self.date@,
        }
    }
}

/// What a header line can be warned about.
#[derive(Clone, Copy, PartialEq, Eq, Structural, Debug)]
pub enum Notice {
    MissingHeader,
    Syntax,
    UnimplementedFunction,
}

impl Notice {
    /// The words of the warning.
    pub fn message(&self) -> (r: &'static str)
        ensures
            *self == Notice::MissingHeader ==> r@ == "Missing header"@,
            *self == Notice::Syntax ==> r@ == "Syntax"@,
            *self == Notice::UnimplementedFunction ==> r@ == "Unimplemented function"@,
    {
        match self {
            Notice::MissingHeader => "Missing header",
            Notice::Syntax => "Syntax",
            Notice::UnimplementedFunction => "Unimplemented function",
        }
    }
}

/// A warning about the header line with the given number.
#[derive(Clone, Copy, PartialEq, Eq, Structural, Debug)]
pub struct HeaderWarning {
    pub line: i32,
    pub notice: Notice,
}

/// What reading one header line did: whether reading stops here, the number
/// of the next line, and the warning to report, if any.
#[derive(Clone, Copy, PartialEq, Eq, Structural, Debug)]
pub struct ScanStep {
    pub stop: bool,
    pub next_line: i32,
    pub warning: Option<HeaderWarning>,
}

/// The model of [`ScanStep`] together with the article it leaves.
pub struct ScanModel {
    pub article: ArticleView,
    pub stop: bool,
    pub next_line: int,
    pub warning: Option<(int, Notice)>,
}

/// The text before the first `:` of `s` (all of `s` when it has none).
pub open spec fn before_colon(s: Seq<char>) -> Seq<char>
    decreases s.len(),
{
    if s.len() == 0 || s[0] == ':' {
        Seq::<char>::empty()
    } else {
        seq![s[0]] + before_colon(s.drop_first())
    }
}

/// The text after the first `:` of `s`.
pub open spec fn after_colon(s: Seq<char>) -> Seq<char> {
    s.skip(before_colon(s).len() + 1int)
}

/// What a `key: value` header line sets, or `None` for a key that is not known.
pub open spec fn apply_field(a: ArticleView, key: Seq<char>, value: Seq<char>) -> Option<ArticleView> {
    if key == "Category"@ {
        Some(ArticleView { category: value, ..a })
    } else if key == "date"@ {
        Some(a)
    } else if key == "title"@ {
        Some(ArticleView { title: value, ..a })
    } else if key == "tags"@ {
        Some(ArticleView { tags: a.tags + split_on(value, ' '), ..a })
    } else {
        None
    }
}

/// Reading header line number `n`, holding `line`, into article `a`.
///
/// Line 0 must be `---`, or the article is a draft and reading stops. A later
/// `---` closes the header. Any other line is `key: value`; a line without a
/// colon is a syntax error and does not count as a line.
pub open spec fn scan_line(a: ArticleView, n: int, line: Seq<char>) -> ScanModel {
    if n == 0 {
        if line != "---"@ {
            ScanModel {
                article: ArticleView { is_draft: true, ..a },
                stop: true,
                next_line: n,
                warning: Some((0, Notice::MissingHeader)),
            }
        } else {
            ScanModel { article: a, stop: false, next_line: n + 1, warning: None }
        }
    } else if line == "---"@ {
        ScanModel { article: ArticleView { is_draft: false, ..a }, stop: true, next_line: n, warning: None }
    } else if !line.contains(':') {
        ScanModel { article: a, stop: false, next_line: n, warning: Some((n, Notice::Syntax)) }
    } else {
        let key = trim(before_colon(line));
        let value = trim(after_colon(line));
        match apply_field(a, key, value) {
            Some(b) => ScanModel { article: b, stop: false, next_line: n + 1, warning: None },
            None => ScanModel {
                article: a,
                stop: false,
                next_line: n + 1,
                warning: Some((n, Notice::UnimplementedFunction)),
            },
        }
    }
}

/// Reading a whole file of lines, from line number `n`, until a line stops
/// the reading: the article that comes out.
pub open spec fn scan_lines(a: ArticleView, n: int, lines: Seq<Seq<char>>) -> ArticleView
    decreases lines.len(),
{
    if lines.len() == 0 {
        a
    } else {
        let m = scan_line(a, n, lines[0]);
        if m.stop {
            m.article
        } else {
            scan_lines(m.article, m.next_line, lines.drop_first())
        }
    }
}

/// Whether reading `lines` from line number `n` stops at one of them.
pub open spec fn stops_within(a: ArticleView, n: int, lines: Seq<Seq<char>>) -> bool
    decreases lines.len(),
{
    if lines.len() == 0 {
        false
    } else {
        let m = scan_line(a, n, lines[0]);
        m.stop || stops_within(m.article, m.next_line, lines.drop_first())
    }
}

/// Once the header is closed, what follows it does not matter; the path of
/// the article never changes; and a file whose first line is not `---` is a
/// draft.
pub proof fn lemma_scan_lines(a: ArticleView, n: int, lines: Seq<Seq<char>>, more: Seq<Seq<char>>)
    ensures
        stops_within(a, n, lines) ==> scan_lines(a, n, lines + more) == scan_lines(a, n, lines),
        scan_lines(a, n, lines).path == a.path,
        n == 0 && lines.len() > 0 && lines[0] != "---"@ ==> scan_lines(a, n, lines).is_draft,
    decreases lines.len(),
{
    if lines.len() > 0 {
        let m = scan_line(a, n, lines[0]);
        assert((lines + more)[0] == lines[0]);
        assert((lines + more).drop_first() =~= lines.drop_first() + more);
        lemma_scan_lines(m.article, m.next_line, lines.drop_first(), more);
    }
}

/// The last name of a `/`-separated path, as `Path::file_name` gives it on
/// Unix: empty and `.` components do not count, and a path that ends in `..`
/// has none.
pub open spec fn last_name(ps: Seq<Seq<char>>) -> Option<Seq<char>>
    decreases ps.len(),
{
    if ps.len() == 0 {
        None
    } else if ps.last().len() == 0 || ps.last() == seq!['.'] {
        last_name(ps.drop_last())
    } else if ps.last() == seq!['.', '.'] {
        None
    } else {
        Some(ps.last())
    }
}

pub open spec fn file_name_of(path: Seq<char>) -> Option<Seq<char>> {
    last_name(split_on(path, '/'))
}

/// The defaults an article gets once its header is read: the file name (or
/// `empty title`) for a missing title, `miscellaneous` for a missing category,
/// and the single tag `empty_tags` for no tags.
pub open spec fn with_defaults(a: ArticleView) -> ArticleView {
    let title = if a.title.len() == 0 {
        match file_name_of(a.path) {
            Some(n) => n,
            None => "empty title"@,
        }
    } else {
        a.title
    };
    let category = if a.category.len() == 0 { "miscellaneous"@ } else { a.category };
    let tags = if a.tags.len() == 0 { seq!["empty_tags"@] } else { a.tags };
    ArticleView { title, category, tags, ..a }
}

impl Article {
    /// A fresh article for the file at `p`: no title, tags, category or date,
    /// not a draft.
    pub fn new(p: &str) -> (a: Article)
        ensures
            a@ == (ArticleView {
                path: p@,
                title: Seq::empty(),
                is_draft: false,
                is_recent: false,
                tags: Seq::empty(),
                category: Seq::empty(),
                date: Seq::empty(),
            }),
    {
        let a = Article {
            path: p.to_owned(),
            title: String::new(),
            is_draft: false,
            is_recent: false,
            tags: Vec::new(),
            category: String::new(),
            date: String::new(),
        };
        assert(strings_view(a.tags@) =~= Seq::<Seq<char>>::empty());
        a
    }
}

/// Splits `s` at its first `:` into the text before and the text after it.
pub fn break_line(s: &String) -> (r: Result<(&str, &str), &'static str>)
    ensures
        match r {
            Ok((a, b)) => s@.contains(':') && a@ == before_colon(s@) && b@ == after_colon(s@),
            Err(e) => !s@.contains(':') && e@ == "Unrecognized pattern"@,
        },
{
    let cs = chars_of(s.as_str());
    let n = cs.len();
    let mut i: usize = 0;
    assert(s@.take(0) =~= Seq::<char>::empty());
    assert(s@.skip(0) =~= s@);
    while i < n
        invariant
            cs@ == s@,
            n == cs@.len(),
            i <= n,
            forall|j: int| 0 <= j < i ==> s@[j] != ':',
            before_colon(s@) == s@.take(i as int) + before_colon(s@.skip(i as int)),
        decreases n - i,
    {
        if cs[i] == ':' {
            assert(before_colon(s@.skip(i as int)) =~= Seq::<char>::empty());
            assert(before_colon(s@) =~= s@.take(i as int));
            let a = s.as_str().substring_char(0, i);
            let b = s.as_str().substring_char(i + 1, n);
            assert(b@ =~= after_colon(s@));
            return Ok((a, b));
        }
        assert(s@.skip(i as int).drop_first() =~= s@.skip(i + 1));
        assert(s@.take(i + 1) =~= s@.take(i as int) + seq![s@[i as int]]);
        i = i + 1;
    }
    assert(!s@.contains(':'));
    Err("Unrecognized pattern")
}

/// Splitting at the first colon loses nothing: the text before it has no
/// colon, and before, colon and after make up the whole line.
pub proof fn lemma_colon_split(s: Seq<char>)
    ensures
        !before_colon(s).contains(':'),
        s.contains(':') ==> before_colon(s) + seq![':'] + after_colon(s) == s,
        !s.contains(':') ==> before_colon(s) == s,
    decreases s.len(),
{
    if s.len() > 0 && s[0] != ':' {
        lemma_colon_split(s.drop_first());
        let r = before_colon(s.drop_first());
        assert(before_colon(s) == seq![s[0]] + r);
        if before_colon(s).contains(':') {
            let k = choose|k: int| 0 <= k < before_colon(s).len() && before_colon(s)[k] == ':';
            assert(k > 0);
            assert(r[k - 1] == ':');
        }
        if s.contains(':') {
            let k = choose|k: int| 0 <= k < s.len() && s[k] == ':';
            assert(s.drop_first()[k - 1] == ':');
            assert(s.drop_first().contains(':'));
            let t = after_colon(s.drop_first());
            assert(r + seq![':'] + t == s.drop_first());
            assert(after_colon(s) =~= t);
            assert(before_colon(s) + seq![':'] + after_colon(s) =~= seq![s[0]] + (r + seq![':'] + t));
            assert(seq![s[0]] + s.drop_first() =~= s);
        } else {
            assert forall|k: int| 0 <= k < s.drop_first().len() implies s.drop_first()[k] != ':' by {
                assert(s[k + 1] != ':');
            }
            assert(before_colon(s) =~= s);
        }
    } else if s.len() > 0 {
        assert(before_colon(s) + seq![':'] + after_colon(s) =~= s);
    } else {
        assert(before_colon(s) =~= s);
    }
}

// ---------------------------------------------------------------------------
// Paths under the blog directory
// ---------------------------------------------------------------------------

/// The number of bytes of [`DIR`] in UTF-8.
pub open spec fn dir_byte_len() -> int {
    encode_utf8(DIR@).len() as int
}

/// Whether `path` can be cut right after the length of [`DIR`]: the cut
/// falls on a character boundary of its UTF-8 encoding.
pub open spec fn cuts_after_dir(path: Seq<char>) -> bool {
    is_char_boundary(encode_utf8(path), dir_byte_len())
}

/// What is left of `path` once as many bytes as [`DIR`] has are cut off.
pub open spec fn relative_part(path: Seq<char>) -> Seq<char> {
    decode_utf8(encode_utf8(path).skip(dir_byte_len()))
}

proof fn lemma_dir_byte_len()
    ensures
        dir_byte_len() == 19,
        DIR@.len() == 19,
{
    reveal_strlit("/home/shen/Core/Vn/");
    reveal_with_fuel(encode_utf8, 20);
    assert(DIR@.len() == 19);
    assert(encode_utf8(DIR@).len() == 19);
}

proof fn lemma_encode_concat(a: Seq<char>, b: Seq<char>)
    ensures
        encode_utf8(a + b) == encode_utf8(a) + encode_utf8(b),
    decreases a.len(),
{
    if a.len() == 0 {
        assert(a + b =~= b);
        assert(encode_utf8(a) =~= Seq::<u8>::empty());
        assert(encode_utf8(a) + encode_utf8(b) =~= encode_utf8(b));
    } else {
        assert((a + b).drop_first() =~= a.drop_first() + b);
        lemma_encode_concat(a.drop_first(), b);
        assert(encode_utf8(a + b) =~= encode_utf8(a) + encode_utf8(b));
    }
}

proof fn lemma_boundary_after(a: Seq<char>, b: Seq<char>)
    ensures
        is_char_boundary(encode_utf8(a + b), encode_utf8(a).len() as int),
    decreases a.len(),
{
    lemma_encode_concat(a, b);
    let bytes = encode_utf8(a + b);
    if a.len() == 0 {
        assert(encode_utf8(a).len() == 0);
    } else {
        vstd::utf8::encode_utf8_first_scalar(a + b);
        assert((a + b)[0] == a[0]);
        assert((a + b).drop_first() =~= a.drop_first() + b);
        lemma_encode_concat(a.drop_first(), b);
        let l = length_of_first_scalar(bytes);
        assert(l == encode_scalar(a[0] as u32).len());
        assert(encode_utf8(a) == encode_scalar(a[0] as u32) + encode_utf8(a.drop_first()));
        assert(pop_first_scalar(bytes) =~= encode_utf8(a.drop_first() + b));
        lemma_boundary_after(a.drop_first(), b);
        assert(valid_utf8(bytes));
    }
}

/// Putting [`DIR`] in front of a path and cutting it off again gives back the path.
pub proof fn lemma_relative_part_of_dir_prefix(p: Seq<char>)
    ensures
        cuts_after_dir(DIR@ + p),
        relative_part(DIR@ + p) == p,
{
    lemma_boundary_after(DIR@, p);
    lemma_encode_concat(DIR@, p);
    assert(encode_utf8(DIR@ + p).skip(dir_byte_len()) =~= encode_utf8(p));
}

/// The absolute path of `p`, a path relative to [`DIR`].
pub fn abs_dir(p: &str) -> (r: String)
    ensures
        r@ == DIR@ + p@,
{
    let mut readme = DIR.to_owned();
    readme.append(p);
    readme
}

/// `p` without its first [`DIR`]-length bytes: the path relative to the blog
/// directory.
pub fn relative_dir(p: &String) -> (r: &str)
    requires
        cuts_after_dir(p@),
    ensures
        r@ == relative_part(p@),
        DIR@.is_prefix_of(p@) ==> r@ == p@.skip(DIR@.len() as int),
{
    proof {
        lemma_dir_byte_len();
    }
    let len = DIR.len();
    let (_, rest) = p.as_str().split_at(len);
    proof {
        assert(rest.spec_bytes() =~= encode_utf8(p@).skip(dir_byte_len()));
        if DIR@.is_prefix_of(p@) {
            let tail = p@.skip(DIR@.len() as int);
            assert(p@ =~= DIR@ + tail);
            lemma_relative_part_of_dir_prefix(tail);
        }
    }
    rest
}

// ---------------------------------------------------------------------------
// Reading headers
// ---------------------------------------------------------------------------

/// The last name of `path`, as `Path::file_name` gives it for a Unix path.
pub fn file_name(path: &str) -> (r: Option<String>)
    ensures
        match r {
            Some(n) => file_name_of(path@) == Some(n@),
            None => file_name_of(path@) is None,
        },
{
    let pieces = split_str(path, '/');
    let ghost ps = strings_view(pieces@);
    let mut i = pieces.len();
    assert(ps.take(i as int) =~= ps);
    while i > 0
        invariant
            i <= pieces@.len(),
            ps == strings_view(pieces@),
            ps == split_on(path@, '/'),
            last_name(ps) == last_name(ps.take(i as int)),
        decreases i,
    {
        proof {
            reveal_strlit(".");
            reveal_strlit("..");
            assert("."@ =~= seq!['.']);
            assert(".."@ =~= seq!['.', '.']);
        }
        let piece = &pieces[i - 1];
        assert(ps.take(i as int).drop_last() =~= ps.take(i - 1));
        assert(ps.take(i as int).last() == piece@);
        if piece.as_str().is_empty() || str_eq(piece.as_str(), ".") {
            i = i - 1;
        } else if str_eq(piece.as_str(), "..") {
            return None;
        } else {
            return Some(piece.clone());
        }
    }
    None
}

impl Article {
    /// Reads header line number `line_num` into the article.
    ///
    /// The article and the step come out as [`scan_line`] says.
    pub fn scan_header_line(&mut self, line_num: i32, line: &String) -> (step: ScanStep)
        requires
            0 <= line_num,
            scan_line(old(self)@, line_num as int, line@).next_line <= i32::MAX,
        ensures
            ({
                let m = scan_line(old(self)@, line_num as int, line@);
                &&& final(self)@ == m.article
                &&& step.stop == m.stop
                &&& step.next_line == m.next_line
                &&& match step.warning {
                    Some(w) => m.warning == Some((w.line as int, w.notice)),
                    None => m.warning is None,
                }
            }),
    {
        if line_num == 0 {
            if !str_eq(line.as_str(), "---") {
                self.is_draft = true;
                let w = HeaderWarning { line: 0, notice: Notice::MissingHeader };
                return ScanStep { stop: true, next_line: line_num, warning: Some(w) };
            }
            return ScanStep { stop: false, next_line: 1, warning: None };
        }
        if str_eq(line.as_str(), "---") {
            self.is_draft = false;
            return ScanStep { stop: true, next_line: line_num, warning: None };
        }
        match break_line(line) {
            Err(_) => {
                let w = HeaderWarning { line: line_num, notice: Notice::Syntax };
                ScanStep { stop: false, next_line: line_num, warning: Some(w) }
            },
            Ok((f, p)) => {
                let key = trim_str(f);
                let value = trim_str(p);
                let mut pieces = split_str(value.as_str(), ' ');
                if str_eq(key.as_str(), "Category") {
                    self.category = value;
                } else if str_eq(key.as_str(), "date") {
                } else if str_eq(key.as_str(), "title") {
                    self.title = value;
                } else if str_eq(key.as_str(), "tags") {
                    let ghost before = self.tags@;
                    self.tags.append(&mut pieces);
                    assert(strings_view(self.tags@) =~= strings_view(before) + split_on(value@, ' '));
                } else {
                    let w = HeaderWarning { line: line_num, notice: Notice::UnimplementedFunction };
                    return ScanStep { stop: false, next_line: line_num + 1, warning: Some(w) };
                }
                ScanStep { stop: false, next_line: line_num + 1, warning: None }
            },
        }
    }

    /// Fills in what the header left out, as [`with_defaults`] says.
    pub fn finish(&mut self)
        ensures
            final(self)@ == with_defaults(old(self)@),
    {
        if self.title.as_str().is_empty() {
            self.title = match file_name(self.path.as_str()) {
                Some(n) => n,
                None => "empty title".to_owned(),
            };
        }
        if self.category.as_str().is_empty() {
            self.category = "miscellaneous".to_owned();
        }
        if self.tags.len() == 0 {
            self.tags.push("empty_tags".to_owned());
            assert(strings_view(self.tags@) =~= seq!["empty_tags"@]);
        }
    }
}

proof fn lemma_last_name_nonempty(ps: Seq<Seq<char>>)
    ensures
        last_name(ps) matches Some(n) ==> n.len() > 0,
    decreases ps.len(),
{
    if ps.len() > 0 {
        lemma_last_name_nonempty(ps.drop_last());
    }
}

/// Once the defaults are in, the article has a title, a category and at least
/// one tag, and filling in defaults again changes nothing.
pub proof fn lemma_defaults_idempotent(a: ArticleView)
    ensures
        with_defaults(a).title.len() > 0,
        with_defaults(a).category.len() > 0,
        with_defaults(a).tags.len() > 0,
        with_defaults(with_defaults(a)) == with_defaults(a),
{
    reveal_strlit("empty title");
    reveal_strlit("miscellaneous");
    lemma_last_name_nonempty(split_on(a.path, '/'));
}

// ---------------------------------------------------------------------------
// Tables of contents
// ---------------------------------------------------------------------------

/// The names of `s` without repeats, each where it first occurs.
pub open spec fn distinct(s: Seq<Seq<char>>) -> Seq<Seq<char>>
    decreases s.len(),
{
    if s.len() == 0 {
        Seq::<Seq<char>>::empty()
    } else {
        let d = distinct(s.drop_last());
        if d.contains(s.last()) {
            d
        } else {
            d.push(s.last())
        }
    }
}

/// `distinct` keeps exactly the names of `s`, each once.
pub proof fn lemma_distinct(s: Seq<Seq<char>>)
    ensures
        forall|x: Seq<char>| #[trigger] distinct(s).contains(x) <==> s.contains(x),
        distinct(s).no_duplicates(),
    decreases s.len(),
{
    if s.len() > 0 {
        lemma_distinct(s.drop_last());
        let d = distinct(s.drop_last());
        let t = s.drop_last();
        assert forall|x: Seq<char>| #[trigger] distinct(s).contains(x) <==> s.contains(x) by {
            if x == s.last() {
                assert(s[s.len() - 1] == x);
                if !d.contains(x) {
                    assert(distinct(s)[d.len() as int] == x);
                }
            } else {
                if s.contains(x) {
                    let k = choose|k: int| 0 <= k < s.len() && s[k] == x;
                    assert(t[k] == x);
                    assert(t.contains(x));
                    assert(d.contains(x));
                    let m = choose|m: int| 0 <= m < d.len() && d[m] == x;
                    assert(distinct(s)[m] == x);
                }
                if distinct(s).contains(x) {
                    let m = choose|m: int| 0 <= m < distinct(s).len() && distinct(s)[m] == x;
                    assert(m < d.len());
                    assert(d[m] == x);
                    assert(d.contains(x));
                    assert(t.contains(x));
                    let k = choose|k: int| 0 <= k < t.len() && t[k] == x;
                    assert(s[k] == x);
                }
            }
        }
        if !d.contains(s.last()) {
            assert forall|i: int, j: int|
                0 <= i < distinct(s).len() && 0 <= j < distinct(s).len() && i != j
                implies distinct(s)[i] != distinct(s)[j] by {
                if i == d.len() {
                    assert(distinct(s)[j] == d[j]);
                } else if j == d.len() {
                    assert(distinct(s)[i] == d[i]);
                }
            }
        }
    }
}

/// A set of names that remembers the order in which they were first added.
pub struct NameSet {
    names: Vec<String>,
}

impl View for NameSet {
    type V = Seq<Seq<char>>;

    closed spec fn view(&self) -> Seq<Seq<char>> {
        strings_view(self.names@)
    }
}

impl NameSet {
    #[verifier::type_invariant]
    closed spec fn no_repeats(self) -> bool {
        strings_view(self.names@).no_duplicates()
    }

    /// The empty set.
    pub fn new() -> (r: NameSet)
        ensures
            r@ == Seq::<Seq<char>>::empty(),
    {
        let r = NameSet { names: Vec::new() };
        assert(strings_view(r.names@) =~= Seq::<Seq<char>>::empty());
        r
    }

    /// Whether `name` is in the set.
    pub fn contains(&self, name: &String) -> (r: bool)
        ensures
            r == self@.contains(name@),
    {
        let mut i: usize = 0;
        while i < self.names.len()
            invariant
                i <= self.names@.len(),
                forall|j: int| 0 <= j < i ==> self@[j] != name@,
            decreases self.names.len() - i,
        {
            if self.names[i] == *name {
                assert(self@[i as int] == name@);
                return true;
            }
            i = i + 1;
        }
        false
    }

    /// Adds `name` unless it is there already; says whether it was added.
    pub fn insert(&mut self, name: String) -> (added: bool)
        ensures
            added == !old(self)@.contains(name@),
            final(self)@ == (if added { old(self)@.push(name@) } else { old(self)@ }),
    {
        proof {
            use_type_invariant(&*self);
        }
        if self.contains(&name) {
            return false;
        }
        let ghost before = self.names@;
        let ghost v = name@;
        let mut names = Vec::new();
        std::mem::swap(&mut names, &mut self.names);
        names.push(name);
        assert(strings_view(names@) =~= strings_view(before).push(v));
        assert(strings_view(names@).no_duplicates()) by {
            assert forall|i: int, j: int|
                0 <= i < strings_view(names@).len() && 0 <= j < strings_view(names@).len() && i != j
                implies strings_view(names@)[i] != strings_view(names@)[j] by {
                if i == before.len() as int {
                    assert(strings_view(before)[j] == strings_view(names@)[j]);
                } else if j == before.len() as int {
                    assert(strings_view(before)[i] == strings_view(names@)[i]);
                }
            }
        }
        self.names = names;
        true
    }

    /// The number of names; no name is there twice.
    pub fn len(&self) -> (r: usize)
        ensures
            r == self@.len(),
            self@.no_duplicates(),
    {
        proof {
            use_type_invariant(self);
        }
        self.names.len()
    }

    /// The name in position `i`.
    pub fn get(&self, i: usize) -> (r: &String)
        requires
            i < self@.len(),
        ensures
            r@ == self@[i as int],
    {
        &self.names[i]
    }
}

/// The line of a table of contents that links to the section `name`.
pub open spec fn table_line(name: Seq<char>) -> Seq<char> {
    "- ["@ + name + "](#"@ + name.map_values(|c: char| ascii_lower(c)) + ")\n"@
}

/// The lines of a table of contents, one per name, in order.
pub open spec fn table_lines(names: Seq<Seq<char>>) -> Seq<char>
    decreases names.len(),
{
    if names.len() == 0 {
        Seq::<char>::empty()
    } else {
        table_lines(names.drop_last()) + table_line(names.last())
    }
}

/// Appends a table of contents with one line per name of `set`, and a blank line.
pub fn create_table(contend: &mut String, set: NameSet)
    ensures
        final(contend)@ == old(contend)@ + table_lines(set@) + "\n\n"@,
{
    let mut i: usize = 0;
    while i < set.len()
        invariant
            i <= set@.len(),
            contend@ == old(contend)@ + table_lines(set@.take(i as int)),
        decreases set@.len() - i,
    {
        let name = set.get(i);
        contend.append("- [");
        contend.append(name.as_str());
        contend.append("](#");
        let lower = ascii_lowercase(name.as_str());
        contend.append(lower.as_str());
        contend.append(")\n");
        assert(set@.take(i + 1).drop_last() =~= set@.take(i as int));
        assert(contend@ =~= old(contend)@ + table_lines(set@.take(i + 1)));
        i = i + 1;
    }
    assert(set@.take(set@.len() as int) =~= set@);
    contend.append("\n\n");
}

/// The view of a list of articles.
pub open spec fn articles_view(v: Seq<Article>) -> Seq<ArticleView> {
    v.map_values(|a: Article| a@)
}

/// The view of a list of groups: a name and the positions of its articles.
pub open spec fn groups_view(v: Seq<(String, Vec<usize>)>) -> Seq<(Seq<char>, Seq<usize>)> {
    v.map_values(|g: (String, Vec<usize>)| (g.0@, g.1@))
}

/// The numbered line that links to article `a`.
pub open spec fn entry_line(num: nat, a: ArticleView) -> Seq<char> {
    decimal(num) + ". ["@ + a.title + "](./"@ + relative_part(a.path) + ")\n"@
}

/// The numbered lines of a group, counted from 0.
pub open spec fn entry_lines(members: Seq<usize>, arts: Seq<ArticleView>) -> Seq<char>
    decreases members.len(),
{
    if members.len() == 0 {
        Seq::<char>::empty()
    } else {
        entry_lines(members.drop_last(), arts) + entry_line(
            (members.len() - 1) as nat,
            arts[members.last() as int],
        )
    }
}

/// The section of one group: a heading and its numbered lines.
pub open spec fn group_text(name: Seq<char>, members: Seq<usize>, arts: Seq<ArticleView>) -> Seq<char> {
    "#### "@ + name + "\n"@ + entry_lines(members, arts) + "\n"@
}

/// The sections of the groups, in order.
pub open spec fn groups_text(groups: Seq<(Seq<char>, Seq<usize>)>, arts: Seq<ArticleView>) -> Seq<char>
    decreases groups.len(),
{
    if groups.len() == 0 {
        Seq::<char>::empty()
    } else {
        groups_text(groups.drop_last(), arts) + group_text(groups.last().0, groups.last().1, arts)
    }
}

/// Whether every position named in the groups is an article whose path can
/// be cut after the blog directory.
pub open spec fn groups_fit(groups: Seq<(Seq<char>, Seq<usize>)>, arts: Seq<ArticleView>) -> bool {
    forall|g: int, j: int|
        0 <= g < groups.len() && 0 <= j < groups[g].1.len() ==> {
            &&& (#[trigger] groups[g].1[j]) < arts.len()
            &&& cuts_after_dir(arts[groups[g].1[j] as int].path)
        }
}

/// Appends one section per group, each listing its articles by number,
/// title and path relative to the blog directory, and a blank line.
pub fn create_contend(contend: &mut String, map: &Vec<(String, Vec<usize>)>, articles: &Vec<Article>)
    requires
        groups_fit(groups_view(map@), articles_view(articles@)),
    ensures
        final(contend)@ == old(contend)@ + groups_text(groups_view(map@), articles_view(articles@)) + "\n"@,
{
    let ghost gs = groups_view(map@);
    let ghost arts = articles_view(articles@);
    let mut g: usize = 0;
    while g < map.len()
        invariant
            g <= map@.len(),
            gs == groups_view(map@),
            arts == articles_view(articles@),
            groups_fit(gs, arts),
            contend@ == old(contend)@ + groups_text(gs.take(g as int), arts),
        decreases map@.len() - g,
    {
        let (category, members) = &map[g];
        contend.append("#### ");
        contend.append(category.as_str());
        contend.append("\n");
        let ghost heading = contend@;
        let mut num: usize = 0;
        while num < members.len()
            invariant
                g < map@.len(),
                gs == groups_view(map@),
                arts == articles_view(articles@),
                groups_fit(gs, arts),
                *members == map@[g as int].1,
                num <= members@.len(),
                contend@ == heading + entry_lines(members@.take(num as int), arts),
            decreases members@.len() - num,
        {
            let idx = members[num];
            assert(gs[g as int].1[num as int] == idx);
            let article = &articles[idx];
            let path = relative_dir(&article.path);
            push_decimal(contend, num as u64);
            contend.append(". [");
            contend.append(article.title.as_str());
            contend.append("](./");
            contend.append(path);
            contend.append(")\n");
            assert(members@.take(num + 1).drop_last() =~= members@.take(num as int));
            assert(contend@ =~= heading + entry_lines(members@.take(num + 1), arts));
            num = num + 1;
        }
        contend.append("\n");
        assert(members@.take(members@.len() as int) =~= members@);
        assert(gs.take(g + 1).drop_last() =~= gs.take(g as int));
        assert(contend@ =~= old(contend)@ + groups_text(gs.take(g + 1), arts));
        g = g + 1;
    }
    assert(gs.take(map@.len() as int) =~= gs);
    contend.append("\n");
}

/// The text that goes into the README after its template: the category and
/// tag tables of contents, then the category and tag sections.
pub open spec fn readme_text(arts: Seq<ArticleView>) -> Seq<char> {
    "---\n"@ + "## Category\n\n"@ + table_lines(distinct(category::categories(arts))) + "\n\n"@
        + "## Tags\n\n"@ + table_lines(distinct(tags::all_tags(arts))) + "\n\n"@ + groups_text(
        category::category_groups(arts),
        arts,
    ) + "\n"@ + groups_text(tags::tag_groups(arts), arts) + "\n"@
}

/// Renders the README index of the articles, as [`readme_text`] says.
pub fn generate(articles: &Vec<Article>) -> (r: String)
    requires
        category::all_paths_cut(articles_view(articles@)),
    ensures
        r@ == readme_text(articles_view(articles@)),
{
    let mut contend = "---\n".to_owned();
    category::table(&mut contend, articles);
    tags::table(&mut contend, articles);
    category::contend(&mut contend, articles);
    tags::contend(&mut contend, articles);
    assert(contend@ =~= readme_text(articles_view(articles@)));
    contend
}

/// What a `key: value` header line after the first sets: `Category` and
/// `title` take the whole trimmed text after the first colon, `tags` adds the
/// space-separated words of it (which, joined with spaces, give it back), and
/// `date` changes nothing; the line counts as one line, and nothing else of
/// the article changes.
pub proof fn lemma_header_field_line(a: ArticleView, n: int, line: Seq<char>)
    requires
        n > 0,
        line != "---"@,
        line.contains(':'),
    ensures
        ({
            let key = trim(before_colon(line));
            let value = trim(after_colon(line));
            let m = scan_line(a, n, line);
            &&& !m.stop
            &&& m.next_line == n + 1
            &&& m.article.path == a.path
            &&& m.article.is_draft == a.is_draft
            &&& key == "Category"@ ==> m.article.category == value && m.article.title == a.title
                && m.article.tags == a.tags && m.warning is None
            &&& key == "title"@ ==> m.article.title == value && m.article.category == a.category
                && m.article.tags == a.tags && m.warning is None
            &&& key == "tags"@ ==> m.article.tags.len() > a.tags.len()
                && m.article.tags.subrange(0, a.tags.len() as int) == a.tags
                && join_on(m.article.tags.skip(a.tags.len() as int), ' ') == value
                && m.article.title == a.title && m.article.category == a.category
                && m.warning is None
            &&& key == "date"@ ==> m.article == a && m.warning is None
        }),
{
    reveal_strlit("Category");
    reveal_strlit("date");
    reveal_strlit("title");
    reveal_strlit("tags");
    assert("Category"@ != "date"@ && "Category"@ != "title"@ && "Category"@ != "tags"@) by {
        assert("Category"@.len() != "date"@.len());
        assert("Category"@.len() != "title"@.len());
        assert("Category"@.len() != "tags"@.len());
    }
    assert("date"@ != "title"@ && "title"@ != "tags"@) by {
        assert("date"@.len() != "title"@.len());
        assert("title"@.len() != "tags"@.len());
    }
    assert("date"@ != "tags"@) by {
        assert("date"@[0] != "tags"@[0]);
    }
    let value = trim(after_colon(line));
    let key = trim(before_colon(line));
    let m = scan_line(a, n, line);
    if key == "tags"@ {
        lemma_join_split(value, ' ');
        crate::text::lemma_split_on_shape(value, ' ');
        assert(m.article.tags == a.tags + split_on(value, ' '));
        assert(m.article.tags.subrange(0, a.tags.len() as int) =~= a.tags);
        assert(m.article.tags.skip(a.tags.len() as int) =~= split_on(value, ' '));
    }
}

/// Defaults only fill what is missing: a title, category or tag list that is
/// there already is kept, and nothing else of the article changes.
pub proof fn lemma_defaults_keep_present(a: ArticleView)
    ensures
        a.title.len() > 0 ==> with_defaults(a).title == a.title,
        a.category.len() > 0 ==> with_defaults(a).category == a.category,
        a.tags.len() > 0 ==> with_defaults(a).tags == a.tags,
        a.title.len() == 0 ==> with_defaults(a).title == (match file_name_of(a.path) {
            Some(n) => n,
            None => "empty title"@,
        }),
        with_defaults(a).path == a.path,
        with_defaults(a).is_draft == a.is_draft,
        with_defaults(a).is_recent == a.is_recent,
        with_defaults(a).date == a.date,
{
}

/// The lines of a section number the articles 0, 1, 2, ...: the line of the
/// `j`-th article follows the lines before it and starts with decimal digits
/// that denote `j`, then `. [`, its title, `](./`, its path relative to the
/// blog directory, and `)` with a newline.
pub proof fn lemma_entry_numbering(members: Seq<usize>, arts: Seq<ArticleView>, j: int)
    requires
        0 <= j < members.len(),
    ensures
        exists|d: Seq<char>|
            {
                &&& d.len() > 0
                &&& forall|i: int| 0 <= i < d.len() ==> is_digit(#[trigger] d[i])
                &&& decimal_value(d) == j
                &&& entry_lines(members.take(j + 1), arts) == entry_lines(members.take(j), arts) + d
                    + ". ["@ + arts[members[j] as int].title + "](./"@ + relative_part(
                    arts[members[j] as int].path,
                ) + ")\n"@
            },
{
    let s = members.take(j + 1);
    assert(s.drop_last() =~= members.take(j));
    assert(s.last() == members[j]);
    lemma_decimal(j as nat);
    let d = decimal(j as nat);
    assert(entry_lines(s, arts) =~= entry_lines(members.take(j), arts) + d + ". ["@
        + arts[members[j] as int].title + "](./"@ + relative_part(arts[members[j] as int].path)
        + ")\n"@);
}

} // verus!
