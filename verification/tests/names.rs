use minara::names::{
    check_instance_name, check_version_format, validate_backup_id, validate_instance_name,
    validate_version_format, versions_on_page,
};

fn refusal(r: Result<(), String>) -> String {
    match r {
        Ok(()) => panic!("accepted"),
        Err(e) => e,
    }
}

#[test]
fn names_that_are_accepted() {
    for name in ["survival", "My World", "a.b", "ümlaut", "...", "con1"] {
        assert_eq!(validate_instance_name(name), Ok(()), "{}", name);
    }
    assert_eq!(validate_instance_name(&"x".repeat(64)), Ok(()));
}

#[test]
fn names_that_are_refused() {
    assert_eq!(refusal(validate_instance_name("")), "Instance name cannot be empty");
    assert_eq!(
        refusal(validate_instance_name(&"x".repeat(65))),
        "Instance name is too long (max 64 characters)"
    );
    assert_eq!(
        refusal(validate_instance_name(&"é".repeat(33))),
        "Instance name is too long (max 64 characters)"
    );
    for c in ['/', '\\', ':', '*', '?', '"', '<', '>', '|', '\n', '\r', '\t'] {
        assert_eq!(
            refusal(validate_instance_name(&format!("a{}b", c))),
            format!("Instance name cannot contain '{}'", c)
        );
    }
    assert_eq!(
        refusal(validate_instance_name("a\tb/c")),
        "Instance name cannot contain '/'"
    );
    for name in [".", "..", "CON", "con", "Prn", "aux", "nul"] {
        assert_eq!(
            refusal(validate_instance_name(name)),
            format!("'{}' is a reserved name", name)
        );
    }
}

#[test]
fn reserved_names_go_by_their_upper_case() {
    assert_eq!(refusal(check_instance_name("whatever", "NUL")), "'whatever' is a reserved name");
    assert_eq!(check_instance_name("nul", "nul"), Ok(()));
}

#[test]
fn versions_by_their_format() {
    for v in ["1.21.0.3", "1.2.3.4", "12.345.678.901"] {
        assert_eq!(validate_version_format(v), Ok(()), "{}", v);
    }
    for v in ["", "1.2.3", "1.2.3.4.5", "123.1.1.1", "1.2.3.4444", "1.2.3.x", "v1.2.3.4", "1.2.3.4\n"] {
        assert_eq!(
            refusal(validate_version_format(v)),
            "Invalid version format. Use format like: 1.21.0.3",
            "{}",
            v
        );
    }
    assert_eq!(check_version_format(Some(true)), Ok(()));
    assert!(check_version_format(Some(false)).is_err());
    assert!(check_version_format(None).is_err());
}

#[test]
fn backup_ids() {
    assert_eq!(validate_backup_id("1700000000-123"), Ok(()));
    assert_eq!(validate_backup_id("a_Z-9"), Ok(()));
    assert_eq!(validate_backup_id(&"a".repeat(128)), Ok(()));
    assert_eq!(refusal(validate_backup_id("")), "Backup id cannot be empty");
    assert_eq!(refusal(validate_backup_id(&"a".repeat(129))), "Backup id is too long");
    for id in ["..", "a/b", "a b", "é", "a\n"] {
        assert_eq!(
            refusal(validate_backup_id(id)),
            "Backup id contains invalid characters",
            "{}",
            id
        );
    }
}

#[test]
fn versions_on_the_page() {
    let html = "<li><b>Release:</b> x <a href=\"/w\">1.21.0.3</a></li>\
                <li><b>Preview:</b><a>1.22.0.20</a></li>";
    let found = versions_on_page(html);
    assert_eq!(found.release, Some("1.21.0.3".to_string()));
    assert_eq!(found.preview, Some("1.22.0.20".to_string()));
    let none = versions_on_page("<b>Release:</b> nothing");
    assert_eq!(none.release, None);
    assert_eq!(none.preview, None);
}
