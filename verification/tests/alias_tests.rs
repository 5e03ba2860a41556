use alias_to_sieve::{
    generate_sieve_script, parse_alias_to_map, AliasEmailAddress, AliasFile, SieveError,
};

fn file_from(lines: &[&str], domain: &str) -> AliasFile {
    AliasFile {
        content: lines.iter().map(|l| l.to_string()).collect(),
        default_domain: domain.to_string(),
    }
}

#[test]
fn recursion_detection() {
    let result = parse_alias_to_map(vec![file_from(
        &["a b", "b a"],
        "example.com",
    )]);
    assert!(result.is_err());
}

#[test]
fn apostrophe_destination_detection() {
    let result = parse_alias_to_map(vec![file_from(
        &["o'brien me@example.org"],
        "example.com",
    )]);
    assert!(result.is_err());
}

#[test]
fn apostrophe_redirect_detection() {
    let result = parse_alias_to_map(vec![file_from(
        &["list o'brien@example.org"],
        "example.com",
    )]);
    assert!(result.is_err());
}

#[test]
fn basic_parsing() {
    let result = parse_alias_to_map(vec![file_from(
        &[
            "postmaster me@example.org",
            "abuse me@example.org other",
            "webmaster me@example.org",
            "info me@example.org",
        ],
        "example.com",
    )])
    .unwrap();
    assert_eq!(result.len(), 4);

    for i in 0..result.len() {
        let entry = result.entry_at(i);
        assert_eq!(entry.1[0].canonical(), "me@example.org");
    }
}

#[test]
fn bare_local_part_completion() {
    let addr = AliasEmailAddress::new("me", "example.com").unwrap();
    assert_eq!(addr.canonical(), "me@example.com");
}

#[test]
fn complete_address_kept_verbatim() {
    let addr = AliasEmailAddress::new("  me@example.org, ", "example.com").unwrap();
    assert_eq!(addr.canonical(), "me@example.org");
}

#[test]
fn apostrophe_rejected_anywhere() {
    assert!(matches!(
        AliasEmailAddress::new("o'brien", "example.com"),
        Err(SieveError::InvalidCharacter)
    ));
    assert!(matches!(
        AliasEmailAddress::new("who@o'brien.example", "example.com"),
        Err(SieveError::InvalidCharacter)
    ));
}

#[test]
fn unparsable_address_rejected() {
    assert!(matches!(
        AliasEmailAddress::new("foo@-bar.com", "example.com"),
        Err(SieveError::UnparsableAddress)
    ));
    assert!(matches!(
        AliasEmailAddress::new("not an address", "-bad-"),
        Err(SieveError::UnparsableAddress)
    ));
}

#[test]
fn fan_out_line() {
    let result = parse_alias_to_map(vec![file_from(
        &["alice user1 user2, user3 # fan-out"],
        "example.com",
    )])
    .unwrap();
    assert_eq!(result.len(), 1);
    let entry = result.entry_at(0);
    assert_eq!(entry.0.canonical(), "alice@example.com");
    let forwards: Vec<&str> = entry.1.iter().map(|a| a.canonical()).collect();
    assert_eq!(
        forwards,
        vec![
            "user1@example.com",
            "user2@example.com",
            "user3@example.com"
        ]
    );
}

#[test]
fn comment_and_blank_lines_skipped() {
    let result = parse_alias_to_map(vec![file_from(
        &["", "   ", "# a comment", "   # indented comment", "\t"],
        "example.com",
    )])
    .unwrap();
    assert_eq!(result.len(), 0);
}

#[test]
fn forwardless_line_skipped() {
    let result = parse_alias_to_map(vec![file_from(
        &["loner", "trailing ,", "real me@example.org"],
        "example.com",
    )])
    .unwrap();
    assert_eq!(result.len(), 1);
    assert_eq!(result.entry_at(0).0.canonical(), "real@example.com");
}

#[test]
fn chain_collapses_to_one_hop() {
    let result = parse_alias_to_map(vec![file_from(
        &["first second", "second third@example.org"],
        "example.com",
    )])
    .unwrap();
    assert_eq!(result.len(), 2);
    for i in 0..result.len() {
        let entry = result.entry_at(i);
        assert_eq!(entry.1.len(), 1);
        assert_eq!(entry.1[0].canonical(), "third@example.org");
    }
}

#[test]
fn diamond_converges() {
    let result = parse_alias_to_map(vec![file_from(
        &["a b c", "b d", "c d"],
        "example.com",
    )])
    .unwrap();
    assert_eq!(result.len(), 3);
    for i in 0..result.len() {
        let entry = result.entry_at(i);
        if entry.0.canonical() == "a@example.com" {
            assert_eq!(entry.1.len(), 2);
            assert_eq!(entry.1[0].canonical(), "d@example.com");
            assert_eq!(entry.1[1].canonical(), "d@example.com");
        } else {
            assert_eq!(entry.1.len(), 1);
            assert_eq!(entry.1[0].canonical(), "d@example.com");
        }
    }
}

#[test]
fn self_loop_detected() {
    let result = parse_alias_to_map(vec![file_from(&["me me"], "example.com")]);
    assert!(matches!(result, Err(SieveError::InfiniteRecursion)));
}

#[test]
fn last_definition_wins() {
    let result = parse_alias_to_map(vec![file_from(
        &["dup one@example.org", "dup two@example.org"],
        "example.com",
    )])
    .unwrap();
    assert_eq!(result.len(), 1);
    let entry = result.entry_at(0);
    assert_eq!(entry.1.len(), 1);
    assert_eq!(entry.1[0].canonical(), "two@example.org");
}

#[test]
fn script_is_exact_for_one_alias() {
    let map = parse_alias_to_map(vec![file_from(&["a@x.com b@x.com"], "example.com")]).unwrap();
    let script = generate_sieve_script(map);
    let expected = "require [\"variables\", \"copy\", \"vnd.stalwart.expressions\", \"envelope\", \"editheader\"];\n\nlet \"i\" \"0\";\nwhile \"i < count(envelope.to)\" {\n  let \"redirected\" \"false\";\n  if eval \"eq_ignore_case(envelope.to[i], 'a@x.com')\" {\n    addheader \"Delivered-To\" \"a@x.com\";\n    redirect :copy \"b@x.com\";\n\n    deleteheader :index 1 :is \"Delivered-To\" \"a@x.com\";\n    let \"redirected\" \"true\";\n  }\n  if eval \"!redirected\" {\n    let \"destination\" \"envelope.to[i]\";\n    redirect :copy \"${destination}\";\n  }\n  let \"i\" \"i+1\";\n}\ndiscard;";
    assert_eq!(script, expected);
}

#[test]
fn generation_is_deterministic() {
    let lines = [
        "zeta me@example.org x",
        "alpha me@example.org",
        "beta zeta",
    ];
    let first = generate_sieve_script(
        parse_alias_to_map(vec![file_from(&lines, "example.com")]).unwrap(),
    );
    let second = generate_sieve_script(
        parse_alias_to_map(vec![file_from(&lines, "example.com")]).unwrap(),
    );
    assert_eq!(first, second);
}

#[test]
fn destinations_sorted_in_script() {
    let map = parse_alias_to_map(vec![file_from(
        &["b@x.com t@x.com", "a@x.com t@x.com"],
        "example.com",
    )])
    .unwrap();
    let script = generate_sieve_script(map);
    let a_pos = script.find("'a@x.com'").unwrap();
    let b_pos = script.find("'b@x.com'").unwrap();
    assert!(a_pos < b_pos);
}

#[test]
fn forwards_sorted_in_script() {
    let map = parse_alias_to_map(vec![file_from(
        &["a@x.com z@x.com m@x.com b@x.com"],
        "example.com",
    )])
    .unwrap();
    let script = generate_sieve_script(map);
    let b_pos = script.find("redirect :copy \"b@x.com\"").unwrap();
    let m_pos = script.find("redirect :copy \"m@x.com\"").unwrap();
    let z_pos = script.find("redirect :copy \"z@x.com\"").unwrap();
    assert!(b_pos < m_pos && m_pos < z_pos);
}

#[test]
fn multiple_sources_use_their_own_domains() {
    let result = parse_alias_to_map(vec![
        file_from(&["a me"], "one.example"),
        file_from(&["b me"], "two.example"),
    ])
    .unwrap();
    assert_eq!(result.len(), 2);
    for i in 0..result.len() {
        let entry = result.entry_at(i);
        if entry.0.canonical() == "a@one.example" {
            assert_eq!(entry.1[0].canonical(), "me@one.example");
        } else {
            assert_eq!(entry.0.canonical(), "b@two.example");
            assert_eq!(entry.1[0].canonical(), "me@two.example");
        }
    }
}

#[test]
fn error_descriptions_are_nonempty() {
    assert!(!SieveError::InvalidCharacter.describe().is_empty());
    assert!(!SieveError::UnparsableAddress.describe().is_empty());
    assert!(!SieveError::LineReadFailure.describe().is_empty());
    assert!(!SieveError::InfiniteRecursion.describe().is_empty());
}
