use lzbt_systemd::generation::{join, retain, Generation, Resolved};

fn resolved(version: u64, mark: &str) -> Resolved {
    Resolved {
        generation: Generation {
            version,
            toplevel: String::from(mark),
            kernel: String::from("/nix/store/kernel"),
            initrd: String::from("/nix/store/initrd"),
            cmdline: vec![String::from("console=ttyS0")],
            specialisations: Vec::new(),
        },
        kernel: b"kernel".to_vec(),
        initrd: b"initrd".to_vec(),
        os_release: b"ID=nixos\n".to_vec(),
    }
}

fn versions(items: &Vec<Resolved>) -> Vec<u64> {
    items.iter().map(|r| r.generation.version).collect()
}

fn marks(items: &Vec<Resolved>) -> Vec<String> {
    items.iter().map(|r| r.generation.toplevel.clone()).collect()
}

#[test]
fn retain_orders_from_the_newest() {
    let kept = retain(
        vec![resolved(2, "b"), resolved(5, "e"), resolved(1, "a"), resolved(4, "d")],
        10,
    );
    assert_eq!(versions(&kept), vec![5, 4, 2, 1]);
    assert_eq!(marks(&kept), vec!["e", "d", "b", "a"]);
}

#[test]
fn retain_keeps_the_newest_within_the_limit() {
    let kept = retain(
        vec![resolved(2, "b"), resolved(5, "e"), resolved(1, "a"), resolved(4, "d")],
        2,
    );
    assert_eq!(versions(&kept), vec![5, 4]);
}

#[test]
fn retain_with_the_limit_at_the_number_keeps_all() {
    let kept = retain(vec![resolved(1, "a"), resolved(2, "b"), resolved(3, "c")], 3);
    assert_eq!(versions(&kept), vec![3, 2, 1]);
}

#[test]
fn retain_with_limit_zero_keeps_none() {
    let kept = retain(vec![resolved(1, "a"), resolved(2, "b")], 0);
    assert!(kept.is_empty());
}

#[test]
fn retain_of_nothing_is_nothing() {
    assert!(retain(Vec::new(), 4).is_empty());
}

#[test]
fn retain_leaves_equal_versions_in_their_order() {
    let kept = retain(
        vec![resolved(3, "first"), resolved(7, "top"), resolved(3, "second"), resolved(3, "third")],
        3,
    );
    assert_eq!(versions(&kept), vec![7, 3, 3]);
    assert_eq!(marks(&kept), vec!["top", "first", "second"]);
}

#[test]
fn retain_of_the_extremes() {
    let kept = retain(vec![resolved(0, "low"), resolved(u64::MAX, "high")], 1);
    assert_eq!(versions(&kept), vec![u64::MAX]);
}

#[test]
fn join_parts_words_by_one_blank() {
    assert_eq!(join(&vec![String::from("console=ttyS0")]), "console=ttyS0");
    assert_eq!(
        join(&vec![String::from("init=/init"), String::from("quiet"), String::from("ro")]),
        "init=/init quiet ro"
    );
}

#[test]
fn join_of_nothing_is_empty() {
    assert_eq!(join(&Vec::new()), "");
}

#[test]
fn join_keeps_order_and_repetition() {
    assert_eq!(
        join(&vec![
            String::from("b"),
            String::from("a"),
            String::from("b"),
            String::from(""),
            String::from("a"),
        ]),
        "b a b  a"
    );
}
