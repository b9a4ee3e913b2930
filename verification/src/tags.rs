//! Tags: the tag table of contents and the per-tag sections.

use vstd::prelude::*;
use crate::{
    articles_view, create_contend, create_table, cuts_after_dir, distinct, groups_fit,
    groups_text, groups_view, strings_view, table_lines, Article, ArticleView, NameSet,
};

verus! {

/// The tags of all articles, article by article, each in its order.
pub open spec fn all_tags(arts: Seq<ArticleView>) -> Seq<Seq<char>>
    decreases arts.len(),
{
    if arts.len() == 0 {
        Seq::<Seq<char>>::empty()
    } else {
        all_tags(arts.drop_last()) + arts.last().tags
    }
}

/// How often `k` occurs in `s`.
pub open spec fn occurrences(s: Seq<Seq<char>>, k: Seq<char>) -> nat
    decreases s.len(),
{
    if s.len() == 0 {
        0
    } else {
        occurrences(s.drop_last(), k) + if s.last() == k { 1nat } else { 0nat }
    }
}

/// Among the first `n` articles, the position of each article once for every
/// time it carries tag `k`, in order.
pub open spec fn tag_members_upto(arts: Seq<ArticleView>, k: Seq<char>, n: int) -> Seq<usize>
    decreases n,
{
    if n <= 0 {
        Seq::<usize>::empty()
    } else {
        tag_members_upto(arts, k, n - 1) + Seq::new(
            occurrences(arts[n - 1].tags, k),
            |j: int| (n - 1) as usize,
        )
    }
}

/// The positions of the articles that carry tag `k`, as often as they carry it.
pub open spec fn tag_members(arts: Seq<ArticleView>, k: Seq<char>) -> Seq<usize> {
    tag_members_upto(arts, k, arts.len() as int)
}

/// One group per tag, in order of first occurrence, with its articles.
pub open spec fn tag_groups(arts: Seq<ArticleView>) -> Seq<(Seq<char>, Seq<usize>)> {
    distinct(all_tags(arts)).map_values(|k: Seq<char>| (k, tag_members(arts, k)))
}

/// Whether the path of every article that carries a tag can be cut after
/// the blog directory.
pub open spec fn tagged_paths_cut(arts: Seq<ArticleView>) -> bool {
    forall|i: int| 0 <= i < arts.len() && (#[trigger] arts[i]).tags.len() > 0 ==> cuts_after_dir(arts[i].path)
}

/// The tags of all articles as a set, in order of first occurrence.
fn tag_set(articles: &Vec<Article>) -> (r: NameSet)
    ensures
        r@ == distinct(all_tags(articles_view(articles@))),
{
    let ghost arts = articles_view(articles@);
    let mut set = NameSet::new();
    let mut i: usize = 0;
    while i < articles.len()
        invariant
            i <= articles@.len(),
            arts == articles_view(articles@),
            set@ == distinct(all_tags(arts.take(i as int))),
        decreases articles.len() - i,
    {
        let tags = &articles[i].tags;
        let ghost base = all_tags(arts.take(i as int));
        assert(arts.take(i + 1).drop_last() =~= arts.take(i as int));
        assert(arts[i as int].tags == strings_view(tags@));
        let mut j: usize = 0;
        while j < tags.len()
            invariant
                j <= tags@.len(),
                set@ == distinct(base + strings_view(tags@).take(j as int)),
            decreases tags.len() - j,
        {
            assert((base + strings_view(tags@).take(j + 1)).drop_last() =~= base + strings_view(
                tags@,
            ).take(j as int));
            set.insert(tags[j].clone());
            j = j + 1;
        }
        assert(strings_view(tags@).take(tags@.len() as int) =~= strings_view(tags@));
        i = i + 1;
    }
    assert(arts.take(articles@.len() as int) =~= arts);
    set
}

/// Appends the tag table of contents: a heading and one line per tag, each
/// tag once.
pub fn table(contend: &mut String, articles: &Vec<Article>)
    ensures
        final(contend)@ == old(contend)@ + "## Tags\n\n"@ + table_lines(
            distinct(all_tags(articles_view(articles@))),
        ) + "\n\n"@,
{
    let set = tag_set(articles);
    contend.append("## Tags\n\n");
    create_table(contend, set);
}

proof fn lemma_occurrences_bound(s: Seq<Seq<char>>, k: Seq<char>)
    ensures
        occurrences(s, k) <= s.len(),
    decreases s.len(),
{
    if s.len() > 0 {
        lemma_occurrences_bound(s.drop_last(), k);
    }
}

proof fn lemma_tag_members_upto_bounds(arts: Seq<ArticleView>, k: Seq<char>, n: int)
    requires
        n <= arts.len(),
        arts.len() <= usize::MAX,
    ensures
        forall|j: int|
            0 <= j < tag_members_upto(arts, k, n).len() ==> {
                &&& 0 <= #[trigger] tag_members_upto(arts, k, n)[j] < n
                &&& arts[tag_members_upto(arts, k, n)[j] as int].tags.len() > 0
            },
    decreases n,
{
    if n > 0 {
        lemma_tag_members_upto_bounds(arts, k, n - 1);
        let p = tag_members_upto(arts, k, n - 1);
        let r = tag_members_upto(arts, k, n);
        assert forall|j: int| 0 <= j < r.len() implies {
            &&& 0 <= #[trigger] r[j] < n
            &&& arts[r[j] as int].tags.len() > 0
        } by {
            if j < p.len() {
                assert(r[j] == p[j]);
            } else {
                lemma_occurrences_bound(arts[n - 1].tags, k);
            }
        }
    }
}

/// Appends one section per tag, in order of first occurrence, listing the
/// articles with that tag in their order (an article as often as it carries
/// the tag).
pub fn contend(contend: &mut String, articles: &Vec<Article>)
    requires
        tagged_paths_cut(articles_view(articles@)),
    ensures
        final(contend)@ == old(contend)@ + groups_text(
            tag_groups(articles_view(articles@)),
            articles_view(articles@),
        ) + "\n"@,
{
    let ghost arts = articles_view(articles@);
    let n = articles.len();
    let set = tag_set(articles);
    let mut map: Vec<(String, Vec<usize>)> = Vec::new();
    let mut g: usize = 0;
    while g < set.len()
        invariant
            g <= set@.len(),
            n == articles@.len(),
            arts == articles_view(articles@),
            set@ == distinct(all_tags(arts)),
            groups_view(map@) == tag_groups(arts).take(g as int),
        decreases set@.len() - g,
    {
        let key = set.get(g).clone();
        let mut members: Vec<usize> = Vec::new();
        let mut i: usize = 0;
        while i < n
            invariant
                i <= articles@.len(),
                n == articles@.len(),
                arts == articles_view(articles@),
                members@ == tag_members_upto(arts, key@, i as int),
            decreases n - i,
        {
            let tags = &articles[i].tags;
            let ghost base = members@;
            assert(arts[i as int].tags == strings_view(tags@));
            let mut j: usize = 0;
            while j < tags.len()
                invariant
                    i < articles@.len(),
                    j <= tags@.len(),
                    members@ == base + Seq::new(
                        occurrences(strings_view(tags@).take(j as int), key@),
                        |m: int| i,
                    ),
                decreases tags.len() - j,
            {
                assert(strings_view(tags@).take(j + 1).drop_last() =~= strings_view(tags@).take(
                    j as int,
                ));
                if tags[j] == key {
                    members.push(i);
                }
                assert(members@ =~= base + Seq::new(
                    occurrences(strings_view(tags@).take(j + 1), key@),
                    |m: int| i,
                ));
                j = j + 1;
            }
            assert(strings_view(tags@).take(tags@.len() as int) =~= strings_view(tags@));
            assert(members@ =~= tag_members_upto(arts, key@, i + 1));
            i = i + 1;
        }
        let ghost before = map@;
        let ghost pair = (key@, members@);
        assert(tag_groups(arts)[g as int] == pair);
        map.push((key, members));
        assert(groups_view(map@) =~= groups_view(before).push(pair));
        assert(tag_groups(arts).take(g + 1) =~= tag_groups(arts).take(g as int).push(pair));
        g = g + 1;
    }
    assert(tag_groups(arts).take(set@.len() as int) =~= tag_groups(arts));
    assert(groups_fit(groups_view(map@), arts)) by {
        assert forall|g: int, j: int|
            0 <= g < groups_view(map@).len() && 0 <= j < groups_view(map@)[g].1.len() implies {
                &&& (#[trigger] groups_view(map@)[g].1[j]) < arts.len()
                &&& cuts_after_dir(arts[groups_view(map@)[g].1[j] as int].path)
            } by {
            let k = groups_view(map@)[g].0;
            lemma_tag_members_upto_bounds(arts, k, arts.len() as int);
        }
    }
    create_contend(contend, &map, articles);
}

/// How often position `x` occurs in `s`.
pub open spec fn count_of(s: Seq<usize>, x: usize) -> nat
    decreases s.len(),
{
    if s.len() == 0 {
        0
    } else {
        count_of(s.drop_last(), x) + if s.last() == x { 1nat } else { 0nat }
    }
}

proof fn lemma_count_concat(a: Seq<usize>, b: Seq<usize>, x: usize)
    ensures
        count_of(a + b, x) == count_of(a, x) + count_of(b, x),
    decreases b.len(),
{
    if b.len() == 0 {
        assert(a + b =~= a);
    } else {
        assert((a + b).drop_last() =~= a + b.drop_last());
        lemma_count_concat(a, b.drop_last(), x);
    }
}

proof fn lemma_count_repeat(m: nat, v: usize, x: usize)
    ensures
        count_of(Seq::new(m, |j: int| v), x) == if v == x { m } else { 0 },
    decreases m,
{
    if m > 0 {
        assert(Seq::new(m, |j: int| v).drop_last() =~= Seq::new((m - 1) as nat, |j: int| v));
        lemma_count_repeat((m - 1) as nat, v, x);
    }
}

proof fn lemma_tag_members_count(arts: Seq<ArticleView>, k: Seq<char>, n: int, i: int)
    requires
        0 <= n <= arts.len(),
        arts.len() <= usize::MAX,
        0 <= i < arts.len(),
    ensures
        count_of(tag_members_upto(arts, k, n), i as usize) == if i < n {
            occurrences(arts[i].tags, k)
        } else {
            0
        },
    decreases n,
{
    if n > 0 {
        lemma_tag_members_count(arts, k, n - 1, i);
        lemma_count_concat(
            tag_members_upto(arts, k, n - 1),
            Seq::new(occurrences(arts[n - 1].tags, k), |j: int| (n - 1) as usize),
            i as usize,
        );
        lemma_count_repeat(occurrences(arts[n - 1].tags, k), (n - 1) as usize, i as usize);
    }
}

proof fn lemma_all_tags_contains(arts: Seq<ArticleView>, i: int, k: Seq<char>)
    requires
        0 <= i < arts.len(),
        arts[i].tags.contains(k),
    ensures
        all_tags(arts).contains(k),
    decreases arts.len(),
{
    if i < arts.len() - 1 {
        lemma_all_tags_contains(arts.drop_last(), i, k);
        let j = choose|j: int| 0 <= j < all_tags(arts.drop_last()).len() && all_tags(arts.drop_last())[j] == k;
        assert(all_tags(arts)[j] == k);
    } else {
        let j = choose|j: int| 0 <= j < arts[i].tags.len() && arts[i].tags[j] == k;
        assert(all_tags(arts)[all_tags(arts.drop_last()).len() + j] == k);
    }
}

/// Each tag of each article has a section, and every tag's section lists an
/// article exactly as often as the article carries the tag.
pub proof fn lemma_tag_sections(arts: Seq<ArticleView>, i: int)
    requires
        arts.len() <= usize::MAX,
        0 <= i < arts.len(),
    ensures
        forall|k: Seq<char>| #[trigger] arts[i].tags.contains(k) ==> distinct(all_tags(arts)).contains(k),
        forall|g: int| 0 <= g < tag_groups(arts).len() ==>
            count_of((#[trigger] tag_groups(arts)[g]).1, i as usize)
                == occurrences(arts[i].tags, tag_groups(arts)[g].0),
{
    crate::lemma_distinct(all_tags(arts));
    assert forall|k: Seq<char>| #[trigger] arts[i].tags.contains(k) implies distinct(all_tags(arts)).contains(k) by {
        lemma_all_tags_contains(arts, i, k);
    }
    assert forall|g: int| 0 <= g < tag_groups(arts).len() implies
        count_of((#[trigger] tag_groups(arts)[g]).1, i as usize)
            == occurrences(arts[i].tags, tag_groups(arts)[g].0) by {
        lemma_tag_members_count(arts, tag_groups(arts)[g].0, arts.len() as int, i);
    }
}

} // verus!
