use blog::{
    abs_dir, break_line, create_contend, create_table, file_name, generate, relative_dir, Article,
    HeaderWarning, NameSet, Notice, ScanStep, DIR,
};

fn article(path: &str, title: &str, category: &str, tags: &[&str]) -> Article {
    let mut a = Article::new(path);
    a.title = title.to_string();
    a.category = category.to_string();
    a.tags = tags.iter().map(|t| t.to_string()).collect();
    a
}

#[test]
fn break_line_splits_at_first_colon() {
    let s = String::from("title: Hello: World");
    assert_eq!(break_line(&s), Ok(("title", " Hello: World")));
    let (a, b) = break_line(&s).unwrap();
    assert_eq!(format!("{}:{}", a, b), s);
    assert!(!a.contains(':'));
    let s = String::from(":x");
    assert_eq!(break_line(&s), Ok(("", "x")));
    let s = String::from("no colon here");
    assert_eq!(break_line(&s), Err("Unrecognized pattern"));
}

#[test]
fn abs_and_relative_dir() {
    assert_eq!(DIR, "/home/shen/Core/Vn/");
    let abs = abs_dir("kernel/syscall.md");
    assert_eq!(abs, "/home/shen/Core/Vn/kernel/syscall.md");
    assert_eq!(relative_dir(&abs), "kernel/syscall.md");
    let other = String::from("/home/else/where/xy/notes.md");
    assert_eq!(relative_dir(&other), "/notes.md");
}

#[test]
fn file_name_agrees_with_std() {
    let samples = [
        "/usr/bin/", "tmp/foo.txt", "foo.txt/.", "foo.txt/.//", "foo.txt/..", "/", "", ".", "..",
        "./a", "a/../b", "/home/shen/Core/Vn/kernel/syscall.md", "a//b", "./",
    ];
    for p in samples.iter() {
        let expected = std::path::Path::new(p).file_name().map(|n| n.to_str().unwrap().to_string());
        assert_eq!(file_name(p), expected, "{:?}", p);
    }
}

fn scan(lines: &[&str]) -> (Article, Vec<ScanStep>) {
    let mut a = Article::new("/home/shen/Core/Vn/kernel/syscall.md");
    let mut steps = Vec::new();
    let mut n = 0;
    for line in lines {
        let step = a.scan_header_line(n, &line.to_string());
        steps.push(step);
        if step.stop {
            break;
        }
        n = step.next_line;
    }
    (a, steps)
}

#[test]
fn header_is_read_until_closing_line() {
    let (a, steps) = scan(&[
        "---",
        "Category: Linux",
        "title:  System calls ",
        "tags: kernel  syscall",
        "date: 2019-3-1",
        "---",
        "tags: ignored",
    ]);
    assert_eq!(a.category, "Linux");
    assert_eq!(a.title, "System calls");
    assert_eq!(a.tags, vec!["kernel", "", "syscall"]);
    assert!(!a.is_draft);
    assert_eq!(steps.len(), 6);
    assert!(steps[5].stop);
    assert!(steps.iter().all(|s| s.warning.is_none()));
}

#[test]
fn missing_header_makes_a_draft() {
    let (a, steps) = scan(&["# Title", "---"]);
    assert!(a.is_draft);
    assert_eq!(steps.len(), 1);
    assert_eq!(
        steps[0],
        ScanStep {
            stop: true,
            next_line: 0,
            warning: Some(HeaderWarning { line: 0, notice: Notice::MissingHeader })
        }
    );
    assert_eq!(Notice::MissingHeader.message(), "Missing header");
}

#[test]
fn syntax_errors_do_not_count_as_lines() {
    let (a, steps) = scan(&["---", "just words", "author: me", "Category: A", "Category: B", "---"]);
    assert_eq!(steps[1].warning, Some(HeaderWarning { line: 1, notice: Notice::Syntax }));
    assert_eq!(steps[1].next_line, 1);
    assert_eq!(
        steps[2].warning,
        Some(HeaderWarning { line: 1, notice: Notice::UnimplementedFunction })
    );
    assert_eq!(Notice::Syntax.message(), "Syntax");
    assert_eq!(Notice::UnimplementedFunction.message(), "Unimplemented function");
    assert_eq!(a.category, "B");
}

#[test]
fn empty_tags_line_gives_one_empty_tag() {
    let (mut a, _) = scan(&["---", "tags:", "---"]);
    assert_eq!(a.tags, vec![""]);
    a.finish();
    assert_eq!(a.tags, vec![""]);
}

#[test]
fn defaults_fill_what_is_missing() {
    let mut a = Article::new("/home/shen/Core/Vn/kernel/syscall.md");
    a.finish();
    assert_eq!(a.title, "syscall.md");
    assert_eq!(a.category, "miscellaneous");
    assert_eq!(a.tags, vec!["empty_tags"]);
    let mut b = Article::new("/home/shen/Core/Vn/..");
    b.finish();
    assert_eq!(b.title, "empty title");
    let before = (a.title.clone(), a.category.clone(), a.tags.clone());
    a.finish();
    assert_eq!((a.title.clone(), a.category.clone(), a.tags.clone()), before);
}

#[test]
fn name_set_keeps_first_occurrence_order() {
    let mut s = NameSet::new();
    assert!(s.insert("b".to_string()));
    assert!(s.insert("a".to_string()));
    assert!(!s.insert("b".to_string()));
    assert_eq!(s.len(), 2);
    assert_eq!(s.get(0), "b");
    assert_eq!(s.get(1), "a");
    assert!(s.contains(&"a".to_string()));
    assert!(!s.contains(&"c".to_string()));
}

#[test]
fn create_table_lists_names_with_lowercase_anchors() {
    let mut s = NameSet::new();
    s.insert("Linux".to_string());
    s.insert("QEMU".to_string());
    let mut contend = String::from("X");
    create_table(&mut contend, s);
    assert_eq!(contend, "X- [Linux](#linux)\n- [QEMU](#qemu)\n\n\n");
}

#[test]
fn create_contend_numbers_each_group_from_zero() {
    let arts = vec![
        article("/home/shen/Core/Vn/a.md", "A", "x", &[]),
        article("/home/shen/Core/Vn/k/b.md", "B", "x", &[]),
    ];
    let map = vec![("x".to_string(), vec![0, 1]), ("y".to_string(), vec![1])];
    let mut contend = String::new();
    create_contend(&mut contend, &map, &arts);
    assert_eq!(
        contend,
        "#### x\n0. [A](./a.md)\n1. [B](./k/b.md)\n\n#### y\n0. [B](./k/b.md)\n\n\n"
    );
}

#[test]
fn generate_renders_tables_and_sections() {
    let arts = vec![
        article("/home/shen/Core/Vn/a.md", "A", "Linux", &["x", "y"]),
        article("/home/shen/Core/Vn/b.md", "B", "Rust", &["y"]),
        article("/home/shen/Core/Vn/c.md", "C", "Linux", &["y", "y"]),
    ];
    let text = generate(&arts);
    let expected = "---\n\
## Category\n\n- [Linux](#linux)\n- [Rust](#rust)\n\n\n\
## Tags\n\n- [x](#x)\n- [y](#y)\n\n\n\
#### Linux\n0. [A](./a.md)\n1. [C](./c.md)\n\n#### Rust\n0. [B](./b.md)\n\n\n\
#### x\n0. [A](./a.md)\n\n#### y\n0. [A](./a.md)\n1. [B](./b.md)\n2. [C](./c.md)\n3. [C](./c.md)\n\n\n";
    assert_eq!(text, expected);
}

#[test]
fn category_and_tag_modules() {
    let arts = vec![
        article("/home/shen/Core/Vn/a.md", "A", "Linux", &["x"]),
        article("/home/shen/Core/Vn/b.md", "B", "Linux", &["x"]),
    ];
    let mut c = String::new();
    blog::category::table(&mut c, &arts);
    assert_eq!(c, "## Category\n\n- [Linux](#linux)\n\n\n");
    let mut t = String::new();
    blog::tags::table(&mut t, &arts);
    assert_eq!(t, "## Tags\n\n- [x](#x)\n\n\n");
    let mut cc = String::new();
    blog::category::contend(&mut cc, &arts);
    assert_eq!(cc, "#### Linux\n0. [A](./a.md)\n1. [B](./b.md)\n\n\n");
    let mut tc = String::new();
    blog::tags::contend(&mut tc, &arts);
    assert_eq!(tc, "#### x\n0. [A](./a.md)\n1. [B](./b.md)\n\n\n");
}

#[test]
fn untagged_articles_with_short_paths_have_no_tag_sections() {
    let arts = vec![article("a.md", "A", "x", &[]), article("", "B", "y", &[])];
    let mut t = String::from("T");
    blog::tags::contend(&mut t, &arts);
    assert_eq!(t, "T\n");
}
