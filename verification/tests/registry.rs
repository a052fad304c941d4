use minara::registry::{rename_registered, Registry};

fn filled(list: &[(&str, u32)]) -> Registry<u32> {
    let mut r = Registry::new();
    for (name, value) in list {
        r.insert(name, *value);
    }
    r
}

#[test]
fn entries_stand_under_their_names() {
    let mut r = filled(&[("a", 1), ("b", 2)]);
    assert_eq!(r.get("a"), Some(&1));
    assert_eq!(r.get("c"), None);
    r.insert("a", 3);
    assert_eq!(r.get("a"), Some(&3));
    r.insert_missing("a", 4);
    r.insert_missing("c", 5);
    assert_eq!(r.get("a"), Some(&3));
    assert_eq!(r.get("c"), Some(&5));
    assert_eq!(r.remove("a"), Some(3));
    assert_eq!(r.remove("a"), None);
    assert_eq!(r.get("a"), None);
    assert_eq!(r.get("b"), Some(&2));
}

#[test]
fn a_rename_moves_one_entry_in_both_lists() {
    let mut instances = filled(&[("old", 1), ("other", 2)]);
    let mut progress = filled(&[("other", 3), ("old", 4)]);
    rename_registered(&mut instances, &mut progress, "old", "new");
    assert_eq!(instances.get("old"), None);
    assert_eq!(instances.get("new"), Some(&1));
    assert_eq!(instances.get("other"), Some(&2));
    assert_eq!(progress.get("old"), None);
    assert_eq!(progress.get("new"), Some(&4));
    assert_eq!(progress.get("other"), Some(&3));
}

#[test]
fn a_rename_takes_the_place_of_what_stood_there() {
    let mut instances = filled(&[("old", 1), ("new", 2)]);
    let mut progress = filled(&[("new", 3)]);
    rename_registered(&mut instances, &mut progress, "old", "new");
    assert_eq!(instances.get("new"), Some(&1));
    assert_eq!(instances.get("old"), None);
    assert_eq!(progress.get("new"), Some(&3));
}

#[test]
fn a_rename_to_the_same_name_keeps_the_entry() {
    let mut r = filled(&[("a", 1)]);
    r.rename("a", "a");
    assert_eq!(r.get("a"), Some(&1));
}
