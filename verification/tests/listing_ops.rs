use mfs::listing::{direct_child_name, filter_page, Enumeration, ObjectItem};

fn item(key: &str, size: u64) -> ObjectItem {
    ObjectItem { key: String::from(key), size }
}

#[test]
fn direct_child_under_empty_prefix() {
    assert_eq!(direct_child_name("", "a"), Some(String::from("a")));
    assert_eq!(direct_child_name("", "hello.txt"), Some(String::from("hello.txt")));
}

#[test]
fn nested_key_is_excluded() {
    // `a/b` under the empty prefix must not appear as a direct child
    assert_eq!(direct_child_name("", "a/b"), None);
    assert_eq!(direct_child_name("", "a/b/c"), None);
}

#[test]
fn prefix_key_itself_is_excluded() {
    assert_eq!(direct_child_name("docs/", "docs/"), None);
    assert_eq!(direct_child_name("", ""), None);
}

#[test]
fn child_under_named_prefix() {
    assert_eq!(direct_child_name("docs/", "docs/readme"), Some(String::from("readme")));
    assert_eq!(direct_child_name("docs/", "docs/sub/readme"), None);
    assert_eq!(direct_child_name("docs/", "other"), None);
    assert_eq!(direct_child_name("docs/", "doc"), None);
}

#[test]
fn filter_page_keeps_only_direct_children() {
    let page = vec![item("a", 1), item("a/b", 2), item("", 9), item("b", 4)];
    let children = filter_page("", &page);
    assert_eq!(children.len(), 2);
    assert_eq!(children[0].name, "a");
    assert_eq!(children[0].size, 1);
    assert_eq!(children[1].name, "b");
    assert_eq!(children[1].size, 4);
}

#[test]
fn pagination_independent_of_boundaries() {
    // the same four keys, split three different ways across pages
    let splits: Vec<Vec<Vec<ObjectItem>>> = vec![
        vec![vec![item("a", 1), item("x/y", 2)], vec![item("b", 3), item("c", 4)]],
        vec![vec![item("a", 1)], vec![item("x/y", 2), item("b", 3)], vec![item("c", 4)]],
        vec![vec![item("a", 1), item("x/y", 2), item("b", 3), item("c", 4)]],
    ];
    for pages in splits {
        let mut e = Enumeration::new(String::new());
        for page in &pages {
            e.push_page(page);
        }
        let names: Vec<&str> = e.children.iter().map(|c| c.name.as_str()).collect();
        assert_eq!(names, vec!["a", "b", "c"]);
        let sizes: Vec<u64> = e.children.iter().map(|c| c.size).collect();
        assert_eq!(sizes, vec![1, 3, 4]);
    }
}

#[test]
fn empty_enumeration_yields_nothing() {
    let mut e = Enumeration::new(String::from("p/"));
    e.push_page(&Vec::new());
    assert_eq!(e.children.len(), 0);
}
