use file_tidy::order::Rel;
use file_tidy::path::{compare_paths, file_extension, parse_path, parts_start_with};
use file_tidy::sorting::{sort_order, SortKey};

fn parts(s: &str) -> Vec<String> {
    parse_path(s).into_iter().map(|p| p.into_iter().collect()).collect()
}

#[test]
fn parse_path_drops_empty_and_dot_pieces() {
    assert_eq!(parts("/a//b/./c/"), vec!["/", "a", "b", "c"]);
    assert_eq!(parts("a/../b"), vec!["a", "..", "b"]);
    assert_eq!(parts("dir/file.txt"), vec!["dir", "file.txt"]);
}

#[test]
fn parse_path_keeps_leading_current_dir() {
    assert_eq!(parts("./a"), vec![".", "a"]);
    assert_eq!(parts("."), vec!["."]);
    assert_eq!(parts("a/./b"), vec!["a", "b"]);
    assert_eq!(parts(""), Vec::<String>::new());
    assert_eq!(parts("/"), vec!["/"]);
}

#[test]
fn path_order_is_by_parts() {
    let a = parse_path("a/b");
    let b = parse_path("a-b");
    // `a` sorts before `a-b` as a part, whatever follows.
    assert_eq!(compare_paths(&a, &b), Rel::Less);
    assert_eq!(compare_paths(&parse_path("a"), &parse_path("a/b")), Rel::Less);
    assert_eq!(compare_paths(&parse_path("x/y"), &parse_path("x//y/")), Rel::Equal);
    assert_eq!(compare_paths(&parse_path("/z"), &parse_path("a")), Rel::Less);
    assert_eq!(compare_paths(&parse_path("b"), &parse_path("a")), Rel::Greater);
}

#[test]
fn starts_with_whole_parts() {
    assert!(parts_start_with(&parse_path("dir/a/x"), &parse_path("dir/a")));
    assert!(parts_start_with(&parse_path("dir/a/x"), &parse_path("dir/a/")));
    assert!(!parts_start_with(&parse_path("dir/ab"), &parse_path("dir/a")));
    assert!(parts_start_with(&parse_path("dir/a"), &parse_path("dir/a")));
}

#[test]
fn extensions_as_std_finds_them() {
    assert_eq!(file_extension("a.txt"), Some("txt".to_string()));
    assert_eq!(file_extension("a.tar.gz"), Some("gz".to_string()));
    assert_eq!(file_extension(".bashrc"), None);
    assert_eq!(file_extension("a."), Some(String::new()));
    assert_eq!(file_extension("noext"), None);
    assert_eq!(file_extension(".."), None);
    assert_eq!(file_extension("..x"), Some("x".to_string()));
}

#[test]
fn extensions_agree_with_std() {
    for name in ["a.txt", "a.tar.gz", ".bashrc", "a.", "noext", "..", "..x", ".a.b"] {
        let std_ext = std::path::Path::new(name).extension().map(|e| e.to_str().unwrap().to_string());
        assert_eq!(file_extension(name), std_ext, "{}", name);
    }
}

#[test]
fn path_order_agrees_with_std() {
    let names = ["a/b", "a-b", "a", "a/b/c", "b", "a.b/c", "a/b.c", "ab"];
    for x in names {
        for y in names {
            let ours = compare_paths(&parse_path(x), &parse_path(y));
            let theirs = std::path::Path::new(x).cmp(std::path::Path::new(y));
            let expected = match theirs {
                std::cmp::Ordering::Less => Rel::Less,
                std::cmp::Ordering::Equal => Rel::Equal,
                std::cmp::Ordering::Greater => Rel::Greater,
            };
            assert_eq!(ours, expected, "{} {}", x, y);
        }
    }
}

#[test]
fn sort_is_stable_ascending() {
    let keys = vec![SortKey::Size(3), SortKey::Size(1), SortKey::Size(3), SortKey::Size(2)];
    assert_eq!(sort_order(&keys, false), vec![1, 3, 0, 2]);
}

#[test]
fn sort_is_stable_descending() {
    let keys = vec![SortKey::Size(3), SortKey::Size(1), SortKey::Size(3), SortKey::Size(2)];
    assert_eq!(sort_order(&keys, true), vec![0, 2, 3, 1]);
}

#[test]
fn sort_of_nothing() {
    assert_eq!(sort_order(&Vec::new(), false), Vec::<usize>::new());
}

#[test]
fn sort_by_digest_then_path() {
    let keys = vec![
        SortKey::Digest(vec![2], parse_path("b")),
        SortKey::Digest(vec![1, 5], parse_path("z")),
        SortKey::Digest(vec![2], parse_path("a")),
        SortKey::Digest(vec![1], parse_path("y")),
    ];
    assert_eq!(sort_order(&keys, false), vec![3, 1, 2, 0]);
}
