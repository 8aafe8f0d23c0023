use file_tidy::command::{NamingRuleArgs, RenameArgs, SeqSortArgs};
use file_tidy::enumerate::{FileHashType, FileSort};
use file_tidy::rename::Naming;

fn rules() -> NamingRuleArgs {
    NamingRuleArgs {
        sequence: false,
        md5: false,
        sha1: false,
        sha256: false,
        sha3_224: false,
        sha3_256: false,
        sha3_384: false,
        sha3_512: false,
    }
}

fn args(rule: NamingRuleArgs) -> RenameArgs {
    RenameArgs {
        dir: "d".to_string(),
        naming_rule: rule,
        upper: false,
        lower: false,
        upper_ext: false,
        low_ext: false,
        seq_len: 6,
        seq_sort: SeqSortArgs { sort: FileSort::Name, asc: false, desc: false },
        prefix: None,
        suffix: None,
        ignore: Vec::new(),
    }
}

#[test]
fn naming_rule_priority() {
    let mut r = rules();
    r.sequence = true;
    r.sha1 = true;
    assert_eq!(args(r).naming(), Naming::Digest(FileHashType::SHA1));
    let mut r = rules();
    r.sequence = true;
    assert_eq!(args(r).naming(), Naming::Sequence);
    let mut r = rules();
    r.sha3_512 = true;
    r.md5 = true;
    assert_eq!(args(r).naming(), Naming::Digest(FileHashType::MD5));
}

#[test]
fn naming_rule_defaults_to_md5() {
    assert_eq!(args(rules()).naming(), Naming::Digest(FileHashType::MD5));
}

#[test]
fn digest_name_with_extension() {
    let mut a = args(rules());
    a.prefix = Some("p_".to_string());
    a.suffix = Some("_s".to_string());
    assert_eq!(a.digest_file_name(&[0xab, 0x01], "photo.JPG"), "p_ab01_s.JPG");
    a.upper = true;
    a.low_ext = true;
    assert_eq!(a.digest_file_name(&[0xab, 0x01], "photo.JPG"), "p_AB01_s.jpg");
}

#[test]
fn digest_name_without_extension() {
    let mut a = args(rules());
    a.prefix = Some("p_".to_string());
    assert_eq!(a.digest_file_name(&[0xff], "README"), "p_ff");
    assert_eq!(a.digest_file_name(&[0xff], "x."), "p_ff.");
    a.suffix = Some("_s".to_string());
    assert_eq!(a.digest_file_name(&[0xff], "README"), "p_ff_s");
    a.prefix = None;
    assert_eq!(a.digest_file_name(&[0xff], "README"), "ff_s");
}

#[test]
fn digest_name_extension_case_flags() {
    let mut a = args(rules());
    a.upper_ext = true;
    assert_eq!(a.digest_file_name(&[1], "a.txt"), "01.TXT");
    a.low_ext = true;
    assert_eq!(a.digest_file_name(&[1], "a.TxT"), "01.txt");
}

#[test]
fn sequence_names() {
    let mut a = args(rules());
    a.seq_len = 3;
    assert_eq!(a.sequence_file_name(7, "photo.jpg"), "007.jpg");
    assert_eq!(a.sequence_file_name(7, "README"), "007");
    assert_eq!(a.sequence_file_name(7, "x."), "007");
    a.prefix = Some("p".to_string());
    a.suffix = Some("s".to_string());
    assert_eq!(a.sequence_file_name(7, "README"), "p007s");
    assert_eq!(a.sequence_file_name(7, "x."), "p007s");
    a.suffix = None;
    a.upper_ext = true;
    a.low_ext = true;
    a.prefix = Some("img".to_string());
    assert_eq!(a.sequence_file_name(12, "a.Png"), "img012.PNG");
    a.upper_ext = false;
    assert_eq!(a.sequence_file_name(1000, "a.Png"), "img1000.png");
}

#[test]
fn sequence_names_in_order() {
    let mut a = args(rules());
    a.seq_len = 2;
    let names = vec!["b.txt".to_string(), "a.txt".to_string(), "c".to_string()];
    let order = a.seq_sort.order_by_name(&names);
    assert_eq!(order, vec![1, 0, 2]);
    assert_eq!(a.sequence_file_names(&names, &order), vec!["01.txt", "02.txt", "03"]);
}

#[test]
fn sequence_names_are_distinct() {
    let a = args(rules());
    let names: Vec<String> = (0..50).map(|i| format!("f{}.dat", i)).collect();
    let order: Vec<usize> = (0..50).collect();
    let mut out = a.sequence_file_names(&names, &order);
    out.sort();
    out.dedup();
    assert_eq!(out.len(), 50);
}

#[test]
fn order_by_name_descending() {
    let s = SeqSortArgs { sort: FileSort::Name, asc: false, desc: true };
    let names = vec!["d/b".to_string(), "d/a".to_string(), "d/c".to_string()];
    assert_eq!(s.order_by_name(&names), vec![2, 0, 1]);
}

#[test]
fn order_by_size_stable() {
    let s = SeqSortArgs { sort: FileSort::Size, asc: true, desc: false };
    assert_eq!(s.order_by_size(&vec![5, 1, 5, 0]), vec![3, 1, 0, 2]);
    let s = SeqSortArgs { sort: FileSort::Size, asc: false, desc: true };
    assert_eq!(s.order_by_size(&vec![5, 1, 5, 0]), vec![0, 2, 1, 3]);
}

#[test]
fn order_by_time_with_times_before_epoch() {
    let s = SeqSortArgs { sort: FileSort::Time, asc: false, desc: false };
    assert_eq!(s.order_by_time(&vec![10, -5, 0]), vec![1, 2, 0]);
}

#[test]
fn sequence_names_with_and_without_extension_stay_distinct() {
    let mut a = args(rules());
    a.seq_len = 1;
    a.prefix = Some("a.".to_string());
    let names = vec!["f.b".to_string(), "g".to_string(), "h.".to_string()];
    let order = vec![0, 1, 2];
    let out = a.sequence_file_names(&names, &order);
    assert_eq!(out, vec!["a.1.b", "a.2", "a.3"]);
}

#[test]
fn descending_numbers_reverse_ascending() {
    let names = vec!["d/c".to_string(), "d/a".to_string(), "d/d".to_string(), "d/b".to_string()];
    let asc = SeqSortArgs { sort: FileSort::Name, asc: true, desc: false }.order_by_name(&names);
    let desc = SeqSortArgs { sort: FileSort::Name, asc: false, desc: true }.order_by_name(&names);
    let n = names.len();
    for a in 0..n {
        let b = desc.iter().position(|&k| k == asc[a]).unwrap();
        assert_eq!(b + 1, n + 1 - (a + 1));
    }
}

#[test]
fn ignored_and_hidden_names_are_skipped() {
    let mut a = args(rules());
    a.ignore = vec!["build".to_string(), "notes.txt".to_string()];
    assert!(a.skips(".git"));
    assert!(a.skips("build"));
    assert!(a.skips("notes.txt"));
    assert!(!a.skips("notes.txt.bak"));
    assert!(!a.skips("photo.jpg"));
    assert!(!a.skips(""));
}
