use pinnaclesort::path::{
    copy_segments, display_chars, display_path, dot_extension_of, find_extension_dot, split_path,
    stem_of,
};
use pinnaclesort::text::{
    chars_of, contains, contains_any, copy_chars, ends_with, ends_with_any, insert_ascending,
    matches_at, rank, same_chars, starts_with, Rank,
};

fn chars(s: &str) -> Vec<char> {
    s.chars().collect()
}

fn text(v: &[char]) -> String {
    v.iter().collect()
}

fn segs(path: &str) -> Vec<String> {
    split_path(path).iter().map(|s| text(s)).collect()
}

#[test]
fn chars_of_gives_the_characters_in_order() {
    assert_eq!(chars_of("abc"), vec!['a', 'b', 'c']);
    assert_eq!(chars_of(""), Vec::<char>::new());
    assert_eq!(chars_of("é/ß"), vec!['é', '/', 'ß']);
    assert_eq!(copy_chars(&chars("xyz")), chars("xyz"));
}

#[test]
fn prefix_suffix_and_infix() {
    assert!(starts_with(&chars("report.txt"), &chars("rep")));
    assert!(starts_with(&chars("report.txt"), &chars("")));
    assert!(starts_with(&chars("abc"), &chars("abc")));
    assert!(!starts_with(&chars("ab"), &chars("abc")));
    assert!(!starts_with(&chars("report"), &chars("port")));
    assert!(ends_with(&chars("report.txt"), &chars(".txt")));
    assert!(ends_with(&chars("report.txt"), &chars("")));
    assert!(!ends_with(&chars("txt"), &chars(".txt")));
    assert!(!ends_with(&chars("report.txt"), &chars("report")));
    assert!(contains(&chars("my.cache.file"), &chars(".cache")));
    assert!(contains(&chars("abc"), &chars("")));
    assert!(contains(&chars(""), &chars("")));
    assert!(contains(&chars("abc"), &chars("abc")));
    assert!(contains(&chars("aab"), &chars("ab")));
    assert!(!contains(&chars("abc"), &chars("abcd")));
    assert!(!contains(&chars("abc"), &chars("ca")));
    assert!(matches_at(&chars("hello"), &chars("ll"), 2));
    assert!(!matches_at(&chars("hello"), &chars("ll"), 1));
    assert!(matches_at(&chars("hello"), &chars(""), 5));
    assert!(!matches_at(&chars("hello"), &chars(""), 6));
    assert!(!matches_at(&chars("hello"), &chars("lo!"), 3));
    assert!(!matches_at(&chars("hello"), &chars("h"), usize::MAX));
}

#[test]
fn any_of_a_table_of_patterns() {
    let table = vec![chars(".dll"), chars(".so")];
    assert!(ends_with_any(&chars("a.so"), &table));
    assert!(ends_with_any(&chars("a.dll"), &table));
    assert!(!ends_with_any(&chars("a.so.txt"), &table));
    assert!(contains_any(&chars("a.so.txt"), &table));
    assert!(!contains_any(&chars("plain"), &table));
    assert!(!ends_with_any(&chars("a.so"), &Vec::new()));
    assert!(!contains_any(&chars("a.so"), &Vec::new()));
}

#[test]
fn rank_is_the_order_of_strings() {
    let words = ["", "a", "a-b", "a/b", "ab", "b", "B", "é", "zz", "z"];
    for x in words {
        for y in words {
            let expected = if x < y {
                Rank::Before
            } else if x == y {
                Rank::Same
            } else {
                Rank::After
            };
            assert_eq!(rank(&chars(x), &chars(y)), expected, "{:?} {:?}", x, y);
            assert_eq!(same_chars(&chars(x), &chars(y)), x == y);
        }
    }
}

#[test]
fn insert_ascending_sorts_and_drops_repeats() {
    let mut list: Vec<Vec<char>> = Vec::new();
    for word in ["m", "b", "z", "b", "a", "m", "ab"] {
        insert_ascending(&mut list, chars(word));
    }
    let got: Vec<String> = list.iter().map(|w| text(w)).collect();
    assert_eq!(got, vec!["a", "ab", "b", "m", "z"]);
}

#[test]
fn split_drops_empty_pieces() {
    assert_eq!(segs("/a/b/c.txt"), vec!["a", "b", "c.txt"]);
    assert_eq!(segs("a/b"), vec!["a", "b"]);
    assert_eq!(segs("//a///b/"), vec!["a", "b"]);
    assert_eq!(segs("/"), Vec::<String>::new());
    assert_eq!(segs(""), Vec::<String>::new());
    assert_eq!(segs("name"), vec!["name"]);
    assert_eq!(segs("/Users/ann/My Files/x"), vec!["Users", "ann", "My Files", "x"]);
}

#[test]
fn display_writes_each_segment_behind_a_separator() {
    assert_eq!(display_path(&vec![chars("a"), chars("b")]), "/a/b");
    assert_eq!(display_path(&vec![chars("Users")]), "/Users");
    assert_eq!(display_path(&Vec::new()), "/");
    assert_eq!(text(&display_chars(&vec![chars("x"), chars("y z")])), "/x/y z");
}

#[test]
fn display_of_split_is_the_normal_form() {
    for (path, normal) in [
        ("/a/b", "/a/b"),
        ("a/b/", "/a/b"),
        ("//a//b", "/a/b"),
        ("", "/"),
        ("/", "/"),
    ] {
        assert_eq!(display_path(&split_path(path)), normal);
    }
}

#[test]
fn copy_segments_takes_the_leading_ones() {
    let all = split_path("/a/b/c/d");
    assert_eq!(display_path(&copy_segments(&all, 3)), "/a/b/c");
    assert_eq!(display_path(&copy_segments(&all, 0)), "/");
    assert_eq!(display_path(&copy_segments(&all, 4)), "/a/b/c/d");
}

#[test]
fn stem_and_extension_split_at_the_last_dot() {
    for (name, stem, ext, dot) in [
        ("report.txt", "report", ".txt", Some(6usize)),
        ("archive.tar.gz", "archive.tar", ".gz", Some(11)),
        ("noext", "noext", "", None),
        (".bashrc", ".bashrc", "", None),
        (".config.yml", ".config", ".yml", Some(7)),
        ("trailing.", "trailing", ".", Some(8)),
        ("", "", "", None),
        (".", ".", "", None),
        ("..", ".", ".", Some(1)),
        ("app.exe", "app", ".exe", Some(3)),
    ] {
        assert_eq!(find_extension_dot(&chars(name)), dot, "{}", name);
        assert_eq!(text(&stem_of(&chars(name))), stem, "{}", name);
        assert_eq!(text(&dot_extension_of(&chars(name))), ext, "{}", name);
    }
}

#[test]
fn stem_and_extension_make_up_the_name() {
    for name in ["a.b", "x", ".h", "a.b.c", "a..", "é.ü"] {
        let mut whole = stem_of(&chars(name));
        whole.extend(dot_extension_of(&chars(name)));
        assert_eq!(text(&whole), name);
    }
}
