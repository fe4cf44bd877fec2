use caseconv::error::Error;
use caseconv::normalize::{normalize_name, plan_renames, Rename};

#[test]
fn test() {}

#[test]
fn normalization_is_idempotent_for_in_files() {
    assert_eq!(normalize_name("case007.in"), Some(String::from("007.in")));
    assert_eq!(normalize_name("007.in"), Some(String::from("007.in")));
}

#[test]
fn ans_and_out_collapse() {
    assert_eq!(normalize_name("t1.ans"), Some(String::from("1.out")));
    assert_eq!(normalize_name("t1.out"), Some(String::from("1.out")));
    assert_eq!(normalize_name("sample03.ans"), Some(String::from("03.out")));
}

#[test]
fn unrecognized_names_are_untouched() {
    assert_eq!(normalize_name("readme.md"), None);
    assert_eq!(normalize_name("noext"), None);
    // a leading dot is a hidden file, not an extension
    assert_eq!(normalize_name(".in"), None);
    assert_eq!(normalize_name("case1.IN"), None);
}

#[test]
fn stem_without_trailing_digits_is_kept() {
    assert_eq!(normalize_name("abc.ans"), Some(String::from("abc.out")));
    assert_eq!(normalize_name("abc.in"), Some(String::from("abc.in")));
}

#[test]
fn inner_dots_belong_to_the_stem() {
    assert_eq!(normalize_name("a.b007.in"), Some(String::from("007.in")));
}

#[test]
fn colliding_targets_are_refused() {
    let names = vec![String::from("t1.ans"), String::from("t1.out")];
    assert_eq!(plan_renames(&names).unwrap_err(), Error::RenameCollision);
}

#[test]
fn plan_covers_every_entry() {
    let names = vec![
        String::from("case1.in"),
        String::from("case1.ans"),
        String::from("readme.md"),
    ];
    let plan = plan_renames(&names).unwrap();
    assert_eq!(
        plan,
        vec![
            Rename { from: String::from("case1.in"), to: String::from("1.in") },
            Rename { from: String::from("case1.ans"), to: String::from("1.out") },
            Rename { from: String::from("readme.md"), to: String::from("readme.md") },
        ]
    );
}

#[test]
fn replanning_a_normalized_tree_changes_nothing() {
    let names = vec![String::from("case1.in"), String::from("case2.in")];
    let plan = plan_renames(&names).unwrap();
    let renamed: Vec<String> = plan.into_iter().map(|r| r.to).collect();
    let again = plan_renames(&renamed).unwrap();
    for entry in again {
        assert_eq!(entry.from, entry.to);
    }
}
