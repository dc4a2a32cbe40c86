use aoclib::root::{advance, begin, repo_root, Walk};

fn chain(flags: &[(&'static str, bool)]) -> Vec<(&'static str, bool)> {
    flags.to_vec()
}

#[test]
fn override_is_the_root_whatever_lies_around() {
    let ancestors = chain(&[("/tmp/x/y", false), ("/tmp/x", true), ("/tmp", false), ("/", false)]);
    assert_eq!(repo_root(Some("/elsewhere"), ancestors), Some("/elsewhere"));
    assert_eq!(repo_root(Some("/nowhere/at/all"), Vec::new()), Some("/nowhere/at/all"));
    assert_eq!(repo_root(Some(""), chain(&[("/", true)])), Some(""));
}

#[test]
fn override_ends_the_search_at_once() {
    assert!(matches!(begin(Some("/p")), Walk::Found("/p")));
    assert!(matches!(begin(None::<&str>), Walk::Start));
}

#[test]
fn walk_stops_at_the_nearest_directory_with_data() {
    let ancestors = chain(&[
        ("/tmp/x/y/z", false),
        ("/tmp/x/y", false),
        ("/tmp/x", true),
        ("/tmp", false),
        ("/", false),
    ]);
    assert_eq!(repo_root(None, ancestors), Some("/tmp/x"));
}

#[test]
fn walk_prefers_the_current_directory() {
    let ancestors = chain(&[("/a/b", true), ("/a", true), ("/", true)]);
    assert_eq!(repo_root(None, ancestors), Some("/a/b"));
}

#[test]
fn walk_reaches_the_top() {
    let ancestors = chain(&[("/a/b", false), ("/a", false), ("/", true)]);
    assert_eq!(repo_root(None, ancestors), Some("/"));
}

#[test]
fn walk_falls_back_on_the_current_directory() {
    let ancestors = chain(&[("/tmp/x/y/z", false), ("/tmp/x/y", false), ("/tmp/x", false), ("/tmp", false), ("/", false)]);
    assert_eq!(repo_root(None, ancestors), Some("/tmp/x/y/z"));
    assert_eq!(repo_root(None, chain(&[("/", false)])), Some("/"));
}

#[test]
fn no_current_directory_and_no_override_is_no_root() {
    assert_eq!(repo_root(None::<&str>, Vec::new()), None);
}

#[test]
fn advance_decides_one_step() {
    assert!(matches!(advance("/a/b", true, Some("/a")), Walk::Found("/a/b")));
    assert!(matches!(advance("/a/b", true, None), Walk::Found("/a/b")));
    assert!(matches!(advance("/a/b", false, Some("/a")), Walk::Probe("/a")));
    assert!(matches!(advance("/", false, None), Walk::Fallback));
}

#[test]
fn stepwise_walk_agrees_with_the_whole() {
    let tree = [("/tmp/x/y/z", false), ("/tmp/x/y", false), ("/tmp/x", true), ("/tmp", false), ("/", false)];
    let mut walk = begin(None::<usize>);
    let mut looked = 0;
    let found = loop {
        walk = match walk {
            Walk::Start => Walk::Probe(0),
            Walk::Probe(i) => {
                looked += 1;
                let parent = if i + 1 < tree.len() { Some(i + 1) } else { None };
                advance(i, tree[i].1, parent)
            }
            Walk::Found(i) => break tree[i].0,
            Walk::Fallback => break tree[0].0,
        };
    };
    assert_eq!(found, "/tmp/x");
    assert_eq!(looked, 3);
    assert_eq!(repo_root(None, tree.to_vec()), Some(found));
}
