use cfgmk::host::{host_name, host_variables, is_shallow, name_for, variables_for};

fn pairs(list: &[(&str, &str)]) -> Vec<(String, String)> {
    list.iter().map(|(k, v)| (k.to_string(), v.to_string())).collect()
}

fn sorted(mut v: Vec<(String, String)>) -> Vec<(String, String)> {
    v.sort();
    v
}

#[test]
fn asked_name_wins() {
    assert_eq!(host_name(Some("alpha".to_string()), "id1", "id1: beta\n"), "alpha");
    assert_eq!(host_name(Some("".to_string()), "id1", "id1: beta\n"), "");
}

#[test]
fn machine_id_names_the_host() {
    let names = "id1: beta\nid2: gamma\n";
    assert_eq!(host_name(None, "id1", names), "beta");
    assert_eq!(host_name(None, "id2", names), "gamma");
    assert_eq!(host_name(None, "id3", names), "");
}

#[test]
fn unreadable_names_give_the_empty_name() {
    assert_eq!(host_name(None, "id1", "- just\n- a list\n"), "");
    assert_eq!(host_name(None, "id1", "id1: [1, 2]\n"), "");
    assert_eq!(host_name(None, "id1", "id1: 'unfinished\n"), "");
}

#[test]
fn variables_of_the_host() {
    let tables = "beta:\n  name: Ada\n  role: web\ngamma:\n  name: Bob\n";
    assert_eq!(sorted(host_variables("beta", tables)), pairs(&[("name", "Ada"), ("role", "web")]));
    assert_eq!(host_variables("gamma", tables), pairs(&[("name", "Bob")]));
}

#[test]
fn unresolved_host_has_no_variables() {
    let tables = "beta:\n  name: Ada\n";
    assert_eq!(host_variables("delta", tables), vec![]);
    assert_eq!(host_variables("", tables), vec![]);
    assert_eq!(host_variables("", "'':\n  name: Ada\n"), vec![]);
    assert_eq!(host_variables("beta", ""), vec![]);
    assert_eq!(host_variables("beta", "beta: 3\n"), vec![]);
}

#[test]
fn later_pair_counts() {
    let names = pairs(&[("id", "first"), ("other", "x"), ("id", "second")]);
    assert_eq!(name_for(&names, "id"), "second");
    assert_eq!(name_for(&names, "other"), "x");
    assert_eq!(name_for(&names, "none"), "");
    let tables = vec![
        ("h".to_string(), pairs(&[("a", "1")])),
        ("g".to_string(), pairs(&[("b", "2")])),
        ("h".to_string(), pairs(&[("c", "3")])),
    ];
    assert_eq!(variables_for(&tables, "h"), pairs(&[("c", "3")]));
    assert_eq!(variables_for(&tables, "g"), pairs(&[("b", "2")]));
    assert_eq!(variables_for(&tables, "f"), vec![]);
    assert_eq!(variables_for(&tables, ""), vec![]);
}

#[test]
fn shallow_bounds_line_starts_and_brackets() {
    assert!(is_shallow(""));
    assert!(is_shallow("a: b\n  c: d\n"));
    assert!(is_shallow(&format!("{}a", " ".repeat(64))));
    assert!(!is_shallow(&format!("{}a", " ".repeat(65))));
    assert!(!is_shallow(&format!("a\n{}a", " ".repeat(65))));
    assert!(!is_shallow(&format!("a\r{}", "-".repeat(65))));
    assert!(is_shallow(&format!("a{}b", " ".repeat(1000))));
    assert!(is_shallow(&format!("# {}\n", "-".repeat(78))));
    assert!(is_shallow(&format!("{}\n{}", "- ".repeat(32), "- ".repeat(32))));
    assert!(!is_shallow(&format!("{}-", "- ".repeat(32))));
    assert!(!is_shallow(&"?:\t- ".repeat(13)));
    assert!(is_shallow(&"x".repeat(100_000)));
    assert!(is_shallow(&"[{".repeat(32)));
    assert!(!is_shallow(&format!("{}x[", "[a]\n".repeat(64))));
    assert!(is_shallow(&"]}".repeat(1000)));
}

#[test]
fn deep_text_is_not_decoded() {
    let deep = "- ".repeat(200_000);
    assert_eq!(host_name(None, "id1", &deep), "");
    assert_eq!(host_variables("beta", &deep), vec![]);
    let nested = format!("a: {}", "[".repeat(200_000));
    assert_eq!(host_name(None, "id1", &nested), "");
    assert_eq!(host_variables("beta", &nested), vec![]);
    let padded = format!("beta:\n{}name: Ada\n", " ".repeat(65));
    assert_eq!(host_variables("beta", &padded), vec![]);
    let wide = format!("beta:\n{}name: Ada\n", " ".repeat(64));
    assert_eq!(host_variables("beta", &wide), pairs(&[("name", "Ada")]));
    let ruled = format!("# {}\nbeta:\n  name: Ada  # {}\n", "-".repeat(78), " ".repeat(70));
    assert_eq!(host_variables("beta", &ruled), pairs(&[("name", "Ada")]));
}

#[test]
fn deepest_shallow_text_is_decoded() {
    let mut stair = String::new();
    for i in 0..64 {
        stair.push_str(&" ".repeat(i));
        stair.push_str("a:\n");
        stair.push_str(&" ".repeat(i));
        stair.push_str("-\n");
    }
    stair.push_str(&" ".repeat(64));
    stair.push_str(&"[a: ".repeat(64));
    assert!(is_shallow(&stair));
    assert_eq!(host_name(None, "id1", &stair), "");
    assert_eq!(host_variables("a", &stair), vec![]);
    let dashes = format!("{}{}", "- ".repeat(32), "{a: [".repeat(32));
    assert!(is_shallow(&dashes));
    assert_eq!(host_variables("a", &dashes), vec![]);
}
