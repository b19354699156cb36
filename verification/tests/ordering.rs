use bindcore::depth_first::{depth_first, depth_first_order, DependencyItem};
use bindcore::types::TypeName;

fn item(name: &str, deps: &[&str]) -> DependencyItem {
    DependencyItem {
        name: TypeName::new(name),
        deps: deps.iter().map(|d| TypeName::new(d)).collect(),
    }
}

#[test]
fn test() {
    let a = item("a", &[]);
    let b = item("b", &["a", "c"]);
    let c = item("c", &["a"]);
    let api_list = vec![a, b, c];
    let mut it = depth_first(api_list);
    assert_eq!(it.next().unwrap().unwrap().name, TypeName::new("a"));
    assert_eq!(it.next().unwrap().unwrap().name, TypeName::new("c"));
    assert_eq!(it.next().unwrap().unwrap().name, TypeName::new("b"));
    assert!(it.next().unwrap().is_none());
}

#[test]
fn order_all_diamond() {
    let items = vec![
        item("top", &["left", "right"]),
        item("left", &["base"]),
        item("right", &["base"]),
        item("base", &[]),
    ];
    let out = depth_first_order(items).unwrap();
    let names: Vec<String> = out.iter().map(|i| i.name.as_str().to_string()).collect();
    assert_eq!(out.len(), 4);
    let pos = |n: &str| names.iter().position(|x| x == n).unwrap();
    assert!(pos("base") < pos("left"));
    assert!(pos("base") < pos("right"));
    assert!(pos("left") < pos("top"));
    assert!(pos("right") < pos("top"));
    assert_eq!(names, vec!["base", "left", "right", "top"]);
}

#[test]
fn empty_input_yields_nothing() {
    let mut it = depth_first(Vec::<DependencyItem>::new());
    assert!(it.next().unwrap().is_none());
    assert!(it.next().unwrap().is_none());
}

#[test]
fn absent_dependency_never_blocks() {
    let items = vec![item("a", &["not_in_this_batch"]), item("b", &["a"])];
    let out = depth_first_order(items).unwrap();
    assert_eq!(out.len(), 2);
    assert_eq!(out[0].name, TypeName::new("a"));
    assert_eq!(out[1].name, TypeName::new("b"));
}

#[test]
fn mutual_cycle_fails() {
    let items = vec![item("a", &["b"]), item("b", &["a"])];
    let err = depth_first_order(items).unwrap_err();
    assert_eq!(err.entries.len(), 2);
    assert_eq!(err.entries[0].name, TypeName::new("a"));
    assert_eq!(err.entries[0].unmet, vec![TypeName::new("b")]);
    assert_eq!(err.entries[1].name, TypeName::new("b"));
    assert_eq!(err.entries[1].unmet, vec![TypeName::new("a")]);
}

#[test]
fn self_loop_fails() {
    let items = vec![item("loner", &["loner"])];
    let err = depth_first_order(items).unwrap_err();
    assert_eq!(err.entries.len(), 1);
    assert_eq!(err.entries[0].name, TypeName::new("loner"));
    assert_eq!(err.entries[0].unmet, vec![TypeName::new("loner")]);
}

#[test]
fn cycle_reports_only_unmet_dependencies() {
    // `ok` is emitted; the cycle report lists only the dependencies that
    // still name queued items, not the already-satisfied or absent ones.
    let items = vec![
        item("ok", &[]),
        item("a", &["ok", "b", "external"]),
        item("b", &["a"]),
    ];
    let err = depth_first_order(items).unwrap_err();
    assert_eq!(err.entries.len(), 2);
    assert_eq!(err.entries[0].name, TypeName::new("a"));
    assert_eq!(err.entries[0].unmet, vec![TypeName::new("b")]);
    assert_eq!(err.entries[1].name, TypeName::new("b"));
    assert_eq!(err.entries[1].unmet, vec![TypeName::new("a")]);
}

#[test]
fn cycle_message_text() {
    let items = vec![item("a", &["b"]), item("b", &["a", "c"]), item("c", &["b"])];
    let err = depth_first_order(items).unwrap_err();
    assert_eq!(
        err.message(),
        "Failed to find a candidate; there must be a circular dependency. Queue is \
         a: b\nb: a,c\nc: b"
    );
}

#[test]
fn exhausted_iterator_stays_empty() {
    let mut it = depth_first(vec![item("solo", &[])]);
    assert_eq!(it.next().unwrap().unwrap().name, TypeName::new("solo"));
    assert!(it.next().unwrap().is_none());
    assert!(it.next().unwrap().is_none());
}

#[test]
fn ties_follow_insertion_order() {
    let items = vec![item("z", &[]), item("m", &[]), item("a", &[])];
    let out = depth_first_order(items).unwrap();
    let names: Vec<&str> = out.iter().map(|i| i.name.as_str()).collect();
    assert_eq!(names, vec!["z", "m", "a"]);
}
