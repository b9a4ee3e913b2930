use blog::category::{plan_note, template, ArticleType, EditedNote};

fn edited(lines: &[&str]) -> (EditedNote, Vec<bool>) {
    let mut n = EditedNote::new();
    let mut errs = Vec::new();
    for l in lines {
        errs.push(n.feed(&l.to_string()));
    }
    (n, errs)
}

#[test]
fn templates_per_kind() {
    let now = "2024-01-02 03:04:05";
    assert_eq!(template(ArticleType::Paper, now), "Category:\ntags:\ntitle:\nlink:\ndate:2024-01-02 03:04:05\n---");
    assert_eq!(template(ArticleType::BlogNotes, now), "title:\nlink:\n---");
    assert_eq!(template(ArticleType::Blog, now), "Category:\ntags:\ntitle:\ndate:2024-01-02 03:04:05\n---");
    assert_eq!(template(ArticleType::Kernel, now), "question:\ntag:\n---");
    assert_eq!(template(ArticleType::Kchecklist, now), "desc:\n---");
    assert_eq!(template(ArticleType::Sentence, now), "sentence:\nnote:\n---");
}

#[test]
fn edited_note_splits_header_and_body() {
    let (n, errs) = edited(&["title: A paper", "# comment", "oops", "title: Better", "---", "body 1", "", "x: y"]);
    assert_eq!(errs, vec![false, false, true, false, false, false, false, false]);
    assert_eq!(n.raw_header(), "title: A paper\noops\ntitle: Better\n");
    assert_eq!(n.body(), "body 1\n\nx: y\n");
    assert_eq!(n.get("title").map(|s| s.as_str()), Some("Better"));
    assert_eq!(n.get("x"), None);
    assert_eq!(n.pairs().len(), 1);
}

#[test]
fn plans_per_kind() {
    let (n, _) = edited(&["title: T", "link: L", "question: Q?", "tag: mm", "desc: D", "note: N", "sentence: S", "---", "text"]);
    let p = plan_note(ArticleType::BlogNotes, &n, -3, "now").unwrap();
    assert_eq!(p.file, "/home/shen/Core/Vn/nonsense/blog/-3.md");
    assert_eq!(p.note.as_deref(), Some("## [T](L)\ntext\n"));
    let p = plan_note(ArticleType::Paper, &n, 0, "now").unwrap();
    assert_eq!(p.file, "/home/shen/Core/Vn/papers/T.md");
    assert!(!p.missing_title);
    assert_eq!(p.note.as_deref(), Some("---\ntitle: T\nlink: L\nquestion: Q?\ntag: mm\ndesc: D\nnote: N\nsentence: S\n---\ntext\n"));
    let p = plan_note(ArticleType::Kernel, &n, 0, "now").unwrap();
    assert_eq!(p.file, "/home/shen/Core/Vn/kernel/question.md");
    assert_eq!(p.note.as_deref(), Some("#### (mm) Q?\ntext\n"));
    let p = plan_note(ArticleType::Kchecklist, &n, 0, "now").unwrap();
    assert_eq!(p.file, "/home/shen/Core/Vn/kernel/kchecklist.md");
    assert_eq!(p.note.as_deref(), Some("## D\ntext\n"));
    let p = plan_note(ArticleType::Sentence, &n, 0, "now").unwrap();
    assert_eq!(p.file, "/home/shen/Core/Vn/TG/sentence.md");
    assert_eq!(p.note.as_deref(), Some("N\nS\ntext\n"));
    assert!(plan_note(ArticleType::Blog, &n, 0, "now").is_none());
}

#[test]
fn plans_fall_back_to_defaults() {
    let (n, _) = edited(&["---", "b"]);
    let p = plan_note(ArticleType::BlogNotes, &n, 52, "now").unwrap();
    assert_eq!(p.file, "/home/shen/Core/Vn/nonsense/blog/52.md");
    assert_eq!(p.note.as_deref(), Some("## [Miss Title](https://martins3.github.io)\nb\n"));
    let p = plan_note(ArticleType::Paper, &n, 0, "2024-01-02 03:04:05").unwrap();
    assert_eq!(p.file, "/home/shen/Core/Vn/papers/2024-01-02 03:04:05.md");
    assert!(p.missing_title);
    let p = plan_note(ArticleType::Kernel, &n, 0, "now").unwrap();
    assert_eq!(p.note, None);
    let p = plan_note(ArticleType::Kchecklist, &n, 0, "now").unwrap();
    assert_eq!(p.note.as_deref(), Some("## Not description\nb\n"));
    let p = plan_note(ArticleType::Sentence, &n, 0, "now").unwrap();
    assert_eq!(p.note.as_deref(), Some("unsorted\nempty sentence\nb\n"));
}
