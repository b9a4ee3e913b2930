//! Categories: the category table of contents, the per-category sections,
//! and the templates and notes for new articles.

use vstd::prelude::*;
use crate::text::{push_char, push_signed_decimal, signed_decimal, chars_of, trim, trim_str};
use crate::{
    abs_dir, after_colon, before_colon, break_line, DIR,
    articles_view, create_contend, create_table, cuts_after_dir, distinct, groups_fit,
    groups_text, groups_view, lemma_distinct, table_lines, Article, ArticleView, NameSet,
};

verus! {

/// The categories of the articles, in order.
pub open spec fn categories(arts: Seq<ArticleView>) -> Seq<Seq<char>> {
    arts.map_values(|a: ArticleView| a.category)
}

/// The positions among the first `n` articles whose category is `k`, in order.
pub open spec fn members_upto(arts: Seq<ArticleView>, k: Seq<char>, n: int) -> Seq<usize>
    decreases n,
{
    if n <= 0 {
        Seq::<usize>::empty()
    } else {
        let p = members_upto(arts, k, n - 1);
        if arts[n - 1].category == k {
            p.push((n - 1) as usize)
        } else {
            p
        }
    }
}

/// The positions of the articles whose category is `k`, in order.
pub open spec fn category_members(arts: Seq<ArticleView>, k: Seq<char>) -> Seq<usize> {
    members_upto(arts, k, arts.len() as int)
}

/// One group per category, in order of first occurrence, with its articles.
pub open spec fn category_groups(arts: Seq<ArticleView>) -> Seq<(Seq<char>, Seq<usize>)> {
    distinct(categories(arts)).map_values(|k: Seq<char>| (k, category_members(arts, k)))
}

/// Whether every article's path can be cut after the blog directory.
pub open spec fn all_paths_cut(arts: Seq<ArticleView>) -> bool {
    forall|i: int| 0 <= i < arts.len() ==> cuts_after_dir(#[trigger] arts[i].path)
}

/// The categories of the articles as a set, in order of first occurrence.
fn category_set(articles: &Vec<Article>) -> (r: NameSet)
    ensures
        r@ == distinct(categories(articles_view(articles@))),
{
    let ghost cats = categories(articles_view(articles@));
    let mut set = NameSet::new();
    let mut i: usize = 0;
    while i < articles.len()
        invariant
            i <= articles@.len(),
            cats == categories(articles_view(articles@)),
            set@ == distinct(cats.take(i as int)),
        decreases articles.len() - i,
    {
        assert(cats.take(i + 1).drop_last() =~= cats.take(i as int));
        assert(cats[i as int] == articles@[i as int].category@);
        set.insert(articles[i].category.clone());
        i = i + 1;
    }
    assert(cats.take(articles@.len() as int) =~= cats);
    set
}

/// Appends the category table of contents: a heading and one line per
/// category, each category once.
pub fn table(contend: &mut String, articles: &Vec<Article>)
    ensures
        final(contend)@ == old(contend)@ + "## Category\n\n"@ + table_lines(
            distinct(categories(articles_view(articles@))),
        ) + "\n\n"@,
{
    let set = category_set(articles);
    contend.append("## Category\n\n");
    create_table(contend, set);
}

proof fn lemma_members_upto_bounds(arts: Seq<ArticleView>, k: Seq<char>, n: int)
    requires
        n <= arts.len(),
        arts.len() <= usize::MAX,
    ensures
        forall|j: int|
            0 <= j < members_upto(arts, k, n).len() ==> {
                &&& 0 <= #[trigger] members_upto(arts, k, n)[j] < n
                &&& arts[members_upto(arts, k, n)[j] as int].category == k
            },
    decreases n,
{
    if n > 0 {
        lemma_members_upto_bounds(arts, k, n - 1);
        let p = members_upto(arts, k, n - 1);
        let r = members_upto(arts, k, n);
        assert forall|j: int| 0 <= j < r.len() implies {
            &&& 0 <= #[trigger] r[j] < n
            &&& arts[r[j] as int].category == k
        } by {
            if j < p.len() {
                assert(r[j] == p[j]);
            }
        }
    }
}

/// Appends one section per category, in order of first occurrence, listing
/// the articles of that category in their order.
pub fn contend(contend: &mut String, articles: &Vec<Article>)
    requires
        all_paths_cut(articles_view(articles@)),
    ensures
        final(contend)@ == old(contend)@ + groups_text(
            category_groups(articles_view(articles@)),
            articles_view(articles@),
        ) + "\n"@,
{
    let ghost arts = articles_view(articles@);
    let n = articles.len();
    let set = category_set(articles);
    let mut map: Vec<(String, Vec<usize>)> = Vec::new();
    let mut g: usize = 0;
    while g < set.len()
        invariant
            g <= set@.len(),
            n == articles@.len(),
            arts == articles_view(articles@),
            set@ == distinct(categories(arts)),
            all_paths_cut(arts),
            groups_view(map@) == category_groups(arts).take(g as int),
        decreases set@.len() - g,
    {
        let key = set.get(g).clone();
        let mut members: Vec<usize> = Vec::new();
        let mut i: usize = 0;
        while i < n
            invariant
                i <= articles@.len(),
                n == articles@.len(),
                arts == articles_view(articles@),
                members@ == members_upto(arts, key@, i as int),
            decreases n - i,
        {
            if articles[i].category == key {
                members.push(i);
            }
            i = i + 1;
        }
        let ghost before = map@;
        let ghost pair = (key@, members@);
        assert(category_groups(arts)[g as int] == pair);
        map.push((key, members));
        assert(groups_view(map@) =~= groups_view(before).push(pair));
        assert(category_groups(arts).take(g + 1) =~= category_groups(arts).take(g as int).push(pair));
        g = g + 1;
    }
    assert(category_groups(arts).take(set@.len() as int) =~= category_groups(arts));
    assert(groups_fit(groups_view(map@), arts)) by {
        assert forall|g: int, j: int|
            0 <= g < groups_view(map@).len() && 0 <= j < groups_view(map@)[g].1.len() implies {
                &&& (#[trigger] groups_view(map@)[g].1[j]) < arts.len()
                &&& cuts_after_dir(arts[groups_view(map@)[g].1[j] as int].path)
            } by {
            let k = groups_view(map@)[g].0;
            lemma_members_upto_bounds(arts, k, arts.len() as int);
        }
    }
    create_contend(contend, &map, articles);
}

/// The members of a category are exactly the articles of that category, in
/// increasing order.
pub proof fn lemma_category_members(arts: Seq<ArticleView>, k: Seq<char>)
    requires
        arts.len() <= usize::MAX,
    ensures
        forall|i: int| 0 <= i < arts.len() ==>
            (category_members(arts, k).contains(i as usize) <==> #[trigger] arts[i].category == k),
        forall|a: int, b: int| 0 <= a < b < category_members(arts, k).len() ==>
            category_members(arts, k)[a] < category_members(arts, k)[b],
{
    lemma_members_upto(arts, k, arts.len() as int);
}

proof fn lemma_members_upto(arts: Seq<ArticleView>, k: Seq<char>, n: int)
    requires
        0 <= n <= arts.len(),
        arts.len() <= usize::MAX,
    ensures
        forall|i: int| 0 <= i < arts.len() ==>
            (members_upto(arts, k, n).contains(i as usize) <==> (i < n && #[trigger] arts[i].category == k)),
        forall|a: int, b: int| 0 <= a < b < members_upto(arts, k, n).len() ==>
            members_upto(arts, k, n)[a] < members_upto(arts, k, n)[b],
    decreases n,
{
    lemma_members_upto_bounds(arts, k, n);
    if n > 0 {
        lemma_members_upto(arts, k, n - 1);
        lemma_members_upto_bounds(arts, k, n - 1);
        let p = members_upto(arts, k, n - 1);
        let r = members_upto(arts, k, n);
        assert forall|i: int| 0 <= i < arts.len() implies
            (r.contains(i as usize) <==> (i < n && #[trigger] arts[i].category == k)) by {
            if r.contains(i as usize) {
                let j = choose|j: int| 0 <= j < r.len() && r[j] == i as usize;
                if j < p.len() {
                    assert(p[j] == r[j]);
                    assert(p.contains(i as usize));
                }
            }
            if i < n && arts[i].category == k {
                if i < n - 1 {
                    assert(p.contains(i as usize));
                    let j = choose|j: int| 0 <= j < p.len() && p[j] == i as usize;
                    assert(r[j] == i as usize);
                } else {
                    assert(r[r.len() - 1] == i as usize);
                }
            }
        }
    }
}

/// Every article is listed under its own category and under no other, and
/// its category has a section.
pub proof fn lemma_each_article_under_its_category(arts: Seq<ArticleView>, i: int)
    requires
        arts.len() <= usize::MAX,
        0 <= i < arts.len(),
    ensures
        distinct(categories(arts)).contains(arts[i].category),
        forall|g: int| 0 <= g < category_groups(arts).len() ==>
            ((#[trigger] category_groups(arts)[g]).1.contains(i as usize)
                <==> category_groups(arts)[g].0 == arts[i].category),
{
    lemma_distinct(categories(arts));
    assert(categories(arts)[i] == arts[i].category);
    assert forall|g: int| 0 <= g < category_groups(arts).len() implies
        ((#[trigger] category_groups(arts)[g]).1.contains(i as usize)
            <==> category_groups(arts)[g].0 == arts[i].category) by {
        lemma_category_members(arts, category_groups(arts)[g].0);
    }
}

// ---------------------------------------------------------------------------
// New articles
// ---------------------------------------------------------------------------

/// The kinds of text that can be written.
#[derive(Clone, Copy, PartialEq, Eq, Structural, Debug)]
pub enum ArticleType {
    BlogNotes,
    Paper,
    Blog,
    Kernel,
    Sentence,
    /// An accumulated checklist for the kernel.
    Kchecklist,
}

/// The header template offered in the editor for a new text of kind `t`;
/// `now` is the current time, written into the `date:` line where there is one.
pub open spec fn template_text(t: ArticleType, now: Seq<char>) -> Seq<char> {
    let head = match t {
        ArticleType::Paper => "Category:\ntags:\ntitle:\nlink:\ndate:"@ + now,
        ArticleType::BlogNotes => "title:\nlink:"@,
        ArticleType::Blog => "Category:\ntags:\ntitle:\ndate:"@ + now,
        ArticleType::Kernel => "question:\ntag:"@,
        ArticleType::Kchecklist => "desc:"@,
        ArticleType::Sentence => "sentence:\nnote:"@,
    };
    head + "\n---"@
}

/// The header template for a new text of kind `t`, as [`template_text`] says.
pub fn template(t: ArticleType, now: &str) -> (r: String)
    ensures
        r@ == template_text(t, now@),
{
    let mut template = match t {
        ArticleType::Paper => {
            let mut x = "Category:\ntags:\ntitle:\nlink:\ndate:".to_owned();
            x.append(now);
            x
        },
        ArticleType::BlogNotes => "title:\nlink:".to_owned(),
        ArticleType::Blog => {
            let mut x = "Category:\ntags:\ntitle:\ndate:".to_owned();
            x.append(now);
            x
        },
        ArticleType::Kernel => "question:\ntag:".to_owned(),
        ArticleType::Kchecklist => "desc:".to_owned(),
        ArticleType::Sentence => "sentence:\nnote:".to_owned(),
    };
    template.append("\n---");
    template
}

/// The value of the last `key` among the pairs.
pub open spec fn lookup(s: Seq<(Seq<char>, Seq<char>)>, k: Seq<char>) -> Option<Seq<char>>
    decreases s.len(),
{
    if s.len() == 0 {
        None
    } else if s.last().0 == k {
        Some(s.last().1)
    } else {
        lookup(s.drop_last(), k)
    }
}

/// The map that a list of pairs stands for.
pub open spec fn pairs_map(s: Seq<(Seq<char>, Seq<char>)>) -> Map<Seq<char>, Seq<char>> {
    Map::new(|k: Seq<char>| lookup(s, k) is Some, |k: Seq<char>| lookup(s, k)->0)
}

pub open spec fn pairs_view(v: Seq<(String, String)>) -> Seq<(Seq<char>, Seq<char>)> {
    v.map_values(|p: (String, String)| (p.0@, p.1@))
}

pub open spec fn keys_unique(s: Seq<(Seq<char>, Seq<char>)>) -> bool {
    forall|i: int, j: int| 0 <= i < s.len() && 0 <= j < s.len() && i != j ==> s[i].0 != s[j].0
}

/// What the editor gave back, read line by line: the header lines (without
/// comment lines), the `key: value` pairs of the header, and the body after
/// the `---` line.
pub struct EditedNote {
    raw_header: String,
    body: String,
    header: Vec<(String, String)>,
    in_header: bool,
}

/// The view of an [`EditedNote`].
pub struct EditedNoteView {
    pub raw_header: Seq<char>,
    pub body: Seq<char>,
    pub header: Map<Seq<char>, Seq<char>>,
    pub in_header: bool,
}

impl View for EditedNote {
    type V = EditedNoteView;

    closed spec fn view(&self) -> EditedNoteView {
        EditedNoteView {
            raw_header: self.raw_header@,
            body: self.body@,
            header: pairs_map(pairs_view(self.header@)),
            in_header: self.in_header,
        }
    }
}

/// Whether [`EditedNote::feed`] can take `line` in state `n`: a header line
/// other than `---` must begin with an ASCII character.
pub open spec fn can_feed(n: EditedNoteView, line: Seq<char>) -> bool {
    n.in_header && line != "---"@ ==> line.len() > 0 && (line[0] as u32) < 128
}

/// Reading one more line of the edited text; the flag tells whether a header
/// line had no colon.
///
/// In the header, `---` ends the header, a line that begins with `#` is a
/// comment, and any other line is kept in the raw header and, when it has a
/// colon, sets its trimmed key to its trimmed value. After the header, every
/// line goes to the body.
pub open spec fn feed_line(n: EditedNoteView, line: Seq<char>) -> (EditedNoteView, bool) {
    if n.in_header {
        if line == "---"@ {
            (EditedNoteView { in_header: false, ..n }, false)
        } else if line[0] == '#' {
            (n, false)
        } else {
            let raw = n.raw_header + line + seq!['\n'];
            if line.contains(':') {
                (
                    EditedNoteView {
                        raw_header: raw,
                        header: n.header.insert(trim(before_colon(line)), trim(after_colon(line))),
                        ..n
                    },
                    false,
                )
            } else {
                (EditedNoteView { raw_header: raw, ..n }, true)
            }
        }
    } else {
        (EditedNoteView { body: n.body + line + seq!['\n'], ..n }, false)
    }
}

proof fn lemma_lookup_push(s: Seq<(Seq<char>, Seq<char>)>, k: Seq<char>, v: Seq<char>)
    ensures
        pairs_map(s.push((k, v))) == pairs_map(s).insert(k, v),
{
    assert(s.push((k, v)).drop_last() =~= s);
    assert(pairs_map(s.push((k, v))) =~= pairs_map(s).insert(k, v));
}

proof fn lemma_lookup_update(s: Seq<(Seq<char>, Seq<char>)>, j: int, k: Seq<char>, v: Seq<char>)
    requires
        keys_unique(s),
        0 <= j < s.len(),
        s[j].0 == k,
    ensures
        forall|x: Seq<char>| #[trigger] lookup(s.update(j, (k, v)), x) == if x == k {
            Some(v)
        } else {
            lookup(s, x)
        },
    decreases s.len(),
{
    let t = s.update(j, (k, v));
    if j == s.len() - 1 {
        assert(t.drop_last() =~= s.drop_last());
        assert forall|x: Seq<char>| #[trigger] lookup(t, x) == if x == k { Some(v) } else { lookup(s, x) } by {
            assert(t.last() == (k, v));
        }
    } else {
        assert(t.drop_last() =~= s.drop_last().update(j, (k, v)));
        assert(keys_unique(s.drop_last()));
        lemma_lookup_update(s.drop_last(), j, k, v);
        assert(s.last().0 != k);
        assert forall|x: Seq<char>| #[trigger] lookup(t, x) == if x == k { Some(v) } else { lookup(s, x) } by {
            assert(t.last() == s.last());
            assert(lookup(s.drop_last().update(j, (k, v)), x) == if x == k { Some(v) } else { lookup(s.drop_last(), x) });
        }
    }
}

impl EditedNote {
    #[verifier::type_invariant]
    closed spec fn unique_keys(self) -> bool {
        keys_unique(pairs_view(self.header@))
    }

    /// Nothing read yet: in the header, with no header lines and no body.
    pub fn new() -> (r: EditedNote)
        ensures
            r@ == (EditedNoteView {
                raw_header: Seq::empty(),
                body: Seq::empty(),
                header: Map::empty(),
                in_header: true,
            }),
    {
        let r = EditedNote {
            raw_header: String::new(),
            body: String::new(),
            header: Vec::new(),
            in_header: true,
        };
        assert(pairs_view(r.header@) =~= Seq::<(Seq<char>, Seq<char>)>::empty());
        assert(pairs_map(pairs_view(r.header@)) =~= Map::<Seq<char>, Seq<char>>::empty());
        r
    }

    /// Sets `key` to `value`, as a map insertion does.
    fn insert(&mut self, key: String, value: String)
        ensures
            final(self)@ == (EditedNoteView { header: old(self)@.header.insert(key@, value@), ..old(self)@ }),
    {
        proof {
            use_type_invariant(&*self);
        }
        let ghost s = pairs_view(self.header@);
        let mut i: usize = 0;
        while i < self.header.len()
            invariant
                i <= self.header@.len(),
                s == pairs_view(self.header@),
                s == pairs_view(old(self).header@),
                self.raw_header == old(self).raw_header,
                self.body == old(self).body,
                self.in_header == old(self).in_header,
                keys_unique(s),
                forall|j: int| 0 <= j < i ==> s[j].0 != key@,
            decreases self.header.len() - i,
        {
            if self.header[i].0 == key {
                let mut pairs = Vec::new();
                std::mem::swap(&mut pairs, &mut self.header);
                let ghost kv = key@;
                let ghost vv = value@;
                pairs.set(i, (key, value));
                proof {
                    assert(pairs_view(pairs@) =~= s.update(i as int, (kv, vv)));
                    lemma_lookup_update(s, i as int, kv, vv);
                    assert(pairs_map(pairs_view(pairs@)) =~= pairs_map(s).insert(kv, vv));
                    assert(keys_unique(pairs_view(pairs@))) by {
                        assert forall|a: int, b: int|
                            0 <= a < pairs_view(pairs@).len() && 0 <= b < pairs_view(pairs@).len() && a != b
                            implies pairs_view(pairs@)[a].0 != pairs_view(pairs@)[b].0 by {
                            assert(pairs_view(pairs@)[a].0 == s[a].0);
                            assert(pairs_view(pairs@)[b].0 == s[b].0);
                        }
                    }
                }
                self.header = pairs;
                return;
            }
            i = i + 1;
        }
        let mut pairs = Vec::new();
        std::mem::swap(&mut pairs, &mut self.header);
        let ghost kv = key@;
        let ghost vv = value@;
        pairs.push((key, value));
        proof {
            assert(pairs_view(pairs@) =~= s.push((kv, vv)));
            lemma_lookup_push(s, kv, vv);
            assert(keys_unique(pairs_view(pairs@))) by {
                assert forall|a: int, b: int|
                    0 <= a < pairs_view(pairs@).len() && 0 <= b < pairs_view(pairs@).len() && a != b
                    implies pairs_view(pairs@)[a].0 != pairs_view(pairs@)[b].0 by {
                    if a < s.len() && b < s.len() {
                        assert(pairs_view(pairs@)[a].0 == s[a].0);
                        assert(pairs_view(pairs@)[b].0 == s[b].0);
                    } else if a < s.len() {
                        assert(pairs_view(pairs@)[a].0 == s[a].0);
                    } else {
                        assert(pairs_view(pairs@)[b].0 == s[b].0);
                    }
                }
            }
        }
        self.header = pairs;
    }

    /// Reads one line, as [`feed_line`] says; returns whether the line was a
    /// header line without a colon.
    pub fn feed(&mut self, line: &String) -> (syntax_error: bool)
        requires
            can_feed(old(self)@, line@),
        ensures
            (final(self)@, syntax_error) == feed_line(old(self)@, line@),
    {
        proof {
            use_type_invariant(&*self);
        }
        if self.in_header {
            if crate::text::str_eq(line.as_str(), "---") {
                self.in_header = false;
                return false;
            }
            let cs = chars_of(line.as_str());
            if cs[0] == '#' {
                return false;
            }
            let mut raw = String::new();
            std::mem::swap(&mut raw, &mut self.raw_header);
            raw.append(line.as_str());
            push_char(&mut raw, '\n');
            assert(raw@ =~= old(self)@.raw_header + line@ + seq!['\n']);
            self.raw_header = raw;
            match break_line(line) {
                Ok((f, p)) => {
                    let key = trim_str(f);
                    let value = trim_str(p);
                    self.insert(key, value);
                    false
                },
                Err(_) => true,
            }
        } else {
            let mut body = String::new();
            std::mem::swap(&mut body, &mut self.body);
            body.append(line.as_str());
            push_char(&mut body, '\n');
            assert(body@ =~= old(self)@.body + line@ + seq!['\n']);
            self.body = body;
            false
        }
    }

    /// The value the header gave `key`, if any.
    pub fn get(&self, key: &str) -> (r: Option<&String>)
        ensures
            match r {
                Some(v) => self@.header.contains_key(key@) && self@.header[key@] == v@,
                None => !self@.header.contains_key(key@),
            },
    {
        let ghost s = pairs_view(self.header@);
        let mut i: usize = self.header.len();
        assert(s.take(i as int) =~= s);
        while i > 0
            invariant
                i <= self.header@.len(),
                s == pairs_view(self.header@),
                lookup(s, key@) == lookup(s.take(i as int), key@),
            decreases i,
        {
            assert(s.take(i as int).drop_last() =~= s.take(i - 1));
            if crate::text::str_eq(self.header[i - 1].0.as_str(), key) {
                return Some(&self.header[i - 1].1);
            }
            i = i - 1;
        }
        None
    }

    /// Whether the `---` line that ends the header has not come yet.
    pub fn in_header(&self) -> (r: bool)
        ensures
            r == self@.in_header,
    {
        self.in_header
    }

    /// The header lines kept, each followed by a newline.
    pub fn raw_header(&self) -> (r: &String)
        ensures
            r@ == self@.raw_header,
    {
        &self.raw_header
    }

    /// The body lines, each followed by a newline.
    pub fn body(&self) -> (r: &String)
        ensures
            r@ == self@.body,
    {
        &self.body
    }

    /// The header pairs, each key once.
    pub fn pairs(&self) -> (r: &Vec<(String, String)>)
        ensures
            pairs_map(pairs_view(r@)) == self@.header,
    {
        &self.header
    }
}

/// The value of `k` in `m`, or `d` when `m` has none.
pub open spec fn value_or(m: Map<Seq<char>, Seq<char>>, k: Seq<char>, d: Seq<char>) -> Seq<char> {
    if m.contains_key(k) {
        m[k]
    } else {
        d
    }
}

/// Where a new text goes and what is appended there: `note` is `None` when
/// the file is only created; `missing_title` is set for a paper without a
/// title, which is then named after the time.
pub struct NotePlan {
    pub file: String,
    pub note: Option<String>,
    pub missing_title: bool,
}

/// The model of a [`NotePlan`].
pub struct NotePlanView {
    pub file: Seq<char>,
    pub note: Option<Seq<char>>,
    pub missing_title: bool,
}

impl View for NotePlan {
    type V = NotePlanView;

    open spec fn view(&self) -> NotePlanView {
        NotePlanView {
            file: self.file@,
            note: match self.note {
                Some(n) => Some(n@),
                None => None,
            },
            missing_title: self.missing_title,
        }
    }
}

/// Where the text of kind `t` that the editor gave back as `n` is appended,
/// and what; `weeks` names the weekly notes file, and `now` names a paper
/// without a title. A plain blog article is not written (`None`).
pub open spec fn note_plan(t: ArticleType, n: EditedNoteView, weeks: int, now: Seq<char>) -> Option<NotePlanView> {
    let h = n.header;
    match t {
        ArticleType::BlogNotes => Some(
            NotePlanView {
                file: DIR@ + "nonsense/blog/"@ + signed_decimal(weeks) + ".md"@,
                note: Some(
                    "## ["@ + value_or(h, "title"@, "Miss Title"@) + "]("@ + value_or(
                        h,
                        "link"@,
                        "https://martins3.github.io"@,
                    ) + ")\n"@ + n.body,
                ),
                missing_title: false,
            },
        ),
        ArticleType::Paper => Some(
            NotePlanView {
                file: DIR@ + "papers/"@ + value_or(h, "title"@, now) + ".md"@,
                note: Some("---\n"@ + n.raw_header + "---\n"@ + n.body),
                missing_title: !h.contains_key("title"@),
            },
        ),
        ArticleType::Kernel => Some(
            NotePlanView {
                file: DIR@ + "kernel/question.md"@,
                note: if h.contains_key("question"@) {
                    Some(
                        "#### ("@ + value_or(h, "tag"@, "unsorted"@) + ") "@ + h["question"@] + "\n"@
                            + n.body,
                    )
                } else {
                    None
                },
                missing_title: false,
            },
        ),
        ArticleType::Kchecklist => Some(
            NotePlanView {
                file: DIR@ + "kernel/kchecklist.md"@,
                note: Some("## "@ + value_or(h, "desc"@, "Not description"@) + "\n"@ + n.body),
                missing_title: false,
            },
        ),
        ArticleType::Sentence => Some(
            NotePlanView {
                file: DIR@ + "TG/sentence.md"@,
                note: Some(
                    value_or(h, "note"@, "unsorted"@) + "\n"@ + value_or(h, "sentence"@, "empty sentence"@)
                        + "\n"@ + n.body,
                ),
                missing_title: false,
            },
        ),
        ArticleType::Blog => None,
    }
}

/// Appends the value of `key` in the header of `n`, or `d` when it has none.
fn push_value_or(s: &mut String, n: &EditedNote, key: &str, d: &str)
    ensures
        final(s)@ == old(s)@ + value_or(n@.header, key@, d@),
{
    match n.get(key) {
        Some(v) => s.append(v.as_str()),
        None => s.append(d),
    }
}

/// Plans where the new text goes and what is written, as [`note_plan`] says.
pub fn plan_note(t: ArticleType, n: &EditedNote, weeks: i64, now: &str) -> (r: Option<NotePlan>)
    ensures
        match r {
            Some(p) => note_plan(t, n@, weeks as int, now@) == Some(p@),
            None => note_plan(t, n@, weeks as int, now@) is None,
        },
{
    match t {
        ArticleType::BlogNotes => {
            let mut relative = "nonsense/blog/".to_owned();
            push_signed_decimal(&mut relative, weeks);
            relative.append(".md");
            let file = abs_dir(relative.as_str());
            let mut note = "## [".to_owned();
            push_value_or(&mut note, n, "title", "Miss Title");
            note.append("](");
            push_value_or(&mut note, n, "link", "https://martins3.github.io");
            note.append(")\n");
            note.append(n.body().as_str());
            assert(file@ =~= note_plan(t, n@, weeks as int, now@).unwrap().file);
            assert(note@ =~= note_plan(t, n@, weeks as int, now@).unwrap().note.unwrap());
            let r = NotePlan { file, note: Some(note), missing_title: false };
            Some(r)
        },
        ArticleType::Paper => {
            let mut relative = "papers/".to_owned();
            push_value_or(&mut relative, n, "title", now);
            relative.append(".md");
            let file = abs_dir(relative.as_str());
            let missing_title = n.get("title").is_none();
            let mut note = "---\n".to_owned();
            note.append(n.raw_header().as_str());
            note.append("---\n");
            note.append(n.body().as_str());
            assert(file@ =~= note_plan(t, n@, weeks as int, now@).unwrap().file);
            assert(note@ =~= note_plan(t, n@, weeks as int, now@).unwrap().note.unwrap());
            let r = NotePlan { file, note: Some(note), missing_title };
            Some(r)
        },
        ArticleType::Kernel => {
            let file = abs_dir("kernel/question.md");
            let mut note = "#### (".to_owned();
            push_value_or(&mut note, n, "tag", "unsorted");
            note.append(") ");
            match n.get("question") {
                Some(q) => {
                    note.append(q.as_str());
                    note.append("\n");
                    note.append(n.body().as_str());
                    let r = NotePlan { file, note: Some(note), missing_title: false };
                    assert(r@ =~= note_plan(t, n@, weeks as int, now@).unwrap());
                    Some(r)
                },
                None => {
                    let r = NotePlan { file, note: None, missing_title: false };
                    assert(r@ =~= note_plan(t, n@, weeks as int, now@).unwrap());
                    Some(r)
                },
            }
        },
        ArticleType::Kchecklist => {
            let file = abs_dir("kernel/kchecklist.md");
            let mut note = "## ".to_owned();
            push_value_or(&mut note, n, "desc", "Not description");
            note.append("\n");
            note.append(n.body().as_str());
            let r = NotePlan { file, note: Some(note), missing_title: false };
            assert(r@ =~= note_plan(t, n@, weeks as int, now@).unwrap());
            Some(r)
        },
        ArticleType::Sentence => {
            let file = abs_dir("TG/sentence.md");
            let mut note = String::new();
            push_value_or(&mut note, n, "note", "unsorted");
            note.append("\n");
            push_value_or(&mut note, n, "sentence", "empty sentence");
            note.append("\n");
            note.append(n.body().as_str());
            let r = NotePlan { file, note: Some(note), missing_title: false };
            assert(r@ =~= note_plan(t, n@, weeks as int, now@).unwrap());
            Some(r)
        },
        ArticleType::Blog => None,
    }
}

/// A header line `key: value` is what a later lookup of its trimmed key gives
/// back.
pub proof fn lemma_header_read_after_write(n: EditedNoteView, line: Seq<char>)
    requires
        n.in_header,
        line != "---"@,
        line.len() > 0,
        line[0] != '#',
        line.contains(':'),
    ensures
        feed_line(n, line).0.header.contains_key(trim(before_colon(line))),
        feed_line(n, line).0.header[trim(before_colon(line))] == trim(after_colon(line)),
        !feed_line(n, line).1,
{
}

/// After the header has ended, every line goes to the body, followed by a
/// newline, and nothing else changes.
pub proof fn lemma_body_after_header(n: EditedNoteView, line: Seq<char>)
    requires
        !n.in_header,
    ensures
        feed_line(n, line).0 == (EditedNoteView { body: n.body + line + seq!['\n'], ..n }),
        !feed_line(n, line).1,
{
}

/// A paper is filed under `papers/`, named after the whole title of its
/// header, or after the time when it has none; what is appended is its raw
/// header and body between `---` lines. Every planned note ends with the body.
pub proof fn lemma_paper_plan(t: ArticleType, n: EditedNoteView, weeks: int, now: Seq<char>)
    ensures
        t == ArticleType::Paper && n.header.contains_key("title"@) ==> note_plan(t, n, weeks, now)
            == Some(
            NotePlanView {
                file: DIR@ + "papers/"@ + n.header["title"@] + ".md"@,
                note: Some("---\n"@ + n.raw_header + "---\n"@ + n.body),
                missing_title: false,
            },
        ),
        t == ArticleType::Paper && !n.header.contains_key("title"@) ==> note_plan(t, n, weeks, now)
            == Some(
            NotePlanView {
                file: DIR@ + "papers/"@ + now + ".md"@,
                note: Some("---\n"@ + n.raw_header + "---\n"@ + n.body),
                missing_title: true,
            },
        ),
        note_plan(t, n, weeks, now) matches Some(p) ==> (p.note matches Some(text)
            ==> n.body.is_suffix_of(text)),
        note_plan(t, n, weeks, now) is None <==> t == ArticleType::Blog,
{
    if let Some(p) = note_plan(t, n, weeks, now) {
        if let Some(text) = p.note {
            let k = text.len() - n.body.len();
            assert(text.subrange(k, text.len() as int) =~= n.body);
        }
    }
}

/// While in the header, only the `---` line ends it, and no header line goes
/// to the body; a header line other than a comment is kept in the raw header
/// followed by a newline. After the header nothing brings it back.
pub proof fn lemma_header_ends_only_at_rule(n: EditedNoteView, line: Seq<char>)
    requires
        can_feed(n, line),
    ensures
        n.in_header && line != "---"@ ==> feed_line(n, line).0.in_header,
        n.in_header && line == "---"@ ==> !feed_line(n, line).0.in_header,
        n.in_header ==> feed_line(n, line).0.body == n.body,
        n.in_header && line != "---"@ && line[0] != '#' ==> feed_line(n, line).0.raw_header
            == n.raw_header + line + seq!['\n'],
        n.in_header && line != "---"@ && line[0] == '#' ==> feed_line(n, line).0 == n,
        !n.in_header ==> !feed_line(n, line).0.in_header,
{
}

} // verus!
