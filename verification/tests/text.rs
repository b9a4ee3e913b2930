use blog::text::{
    ascii_lowercase, chars_of, is_whitespace, push_char, push_decimal, push_signed_decimal,
    split_str, str_eq, string_of, trim_str,
};

#[test]
fn chars_of_keeps_every_character() {
    assert_eq!(chars_of("aé😀b"), vec!['a', 'é', '😀', 'b']);
    assert_eq!(chars_of(""), Vec::<char>::new());
}

#[test]
fn push_char_appends() {
    let mut s = String::from("ab");
    push_char(&mut s, 'é');
    assert_eq!(s, "abé");
}

#[test]
fn string_of_takes_a_slice() {
    let cs = vec!['h', 'e', 'l', 'l', 'o'];
    assert_eq!(string_of(&cs, 1, 4), "ell");
    assert_eq!(string_of(&cs, 2, 2), "");
}

#[test]
fn str_eq_compares_characters() {
    assert!(str_eq("---", "---"));
    assert!(!str_eq("---", "--"));
    assert!(!str_eq("abc", "abd"));
    assert!(str_eq("", ""));
}

#[test]
fn is_whitespace_agrees_with_std() {
    for u in 0u32..0x11_0000 {
        if let Some(c) = char::from_u32(u) {
            assert_eq!(is_whitespace(c), c.is_whitespace(), "U+{:04X}", u);
        }
    }
}

#[test]
fn trim_agrees_with_std() {
    let samples = [
        "",
        "   ",
        "  Linux kernel  ",
        "\tmixed \u{a0}spaces\u{3000}",
        "no-space",
        "\u{2028}line\u{2029}",
        " a b ",
    ];
    for s in samples.iter() {
        assert_eq!(trim_str(s), s.trim(), "{:?}", s);
    }
}

#[test]
fn split_agrees_with_std() {
    let samples = ["", "a", "a b", "a  b", " a ", "rust verus  proof", "   "];
    for s in samples.iter() {
        let expected: Vec<String> = s.split(' ').map(|x| x.to_string()).collect();
        assert_eq!(split_str(s, ' '), expected, "{:?}", s);
    }
    assert_eq!(split_str("/usr/bin/", '/'), vec!["", "usr", "bin", ""]);
}

#[test]
fn lowercase_agrees_with_std() {
    let samples = ["Linux", "ÄBC-Def_9", "", "ALL CAPS", "déjà VU"];
    for s in samples.iter() {
        let mut expected = s.to_string();
        expected.make_ascii_lowercase();
        assert_eq!(ascii_lowercase(s), expected);
    }
}

#[test]
fn decimal_agrees_with_to_string() {
    for n in [0u64, 7, 9, 10, 42, 100, 12345, u64::MAX].iter() {
        let mut s = String::from("#");
        push_decimal(&mut s, *n);
        assert_eq!(s, format!("#{}", n));
    }
    for n in [0i64, -1, 5, -10, 260, i64::MIN, i64::MAX].iter() {
        let mut s = String::new();
        push_signed_decimal(&mut s, *n);
        assert_eq!(s, n.to_string());
    }
}

#[test]
fn text_laws_on_examples() {
    for s in ["  a b  ", "x", "\u{3000}y\t"].iter() {
        let t = trim_str(s);
        assert_eq!(trim_str(&t), t);
        let pieces = split_str(s, ' ');
        assert_eq!(pieces.join(" "), *s);
        let l = ascii_lowercase(s);
        assert_eq!(ascii_lowercase(&l), l);
        assert_eq!(l.chars().count(), s.chars().count());
    }
    let mut d = String::new();
    push_decimal(&mut d, 90210);
    assert_eq!(d.parse::<u64>().unwrap(), 90210);
    assert!(!d.starts_with('0'));
}
