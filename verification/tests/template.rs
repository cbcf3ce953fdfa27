use cfgmk::filter::simple::Builder;
use cfgmk::filter::template::{all_bound, is_plain};
use cfgmk::filter::{Filter, FilterError};

const PIECES: [&str; 24] = [
    "{{", "}}", "{{ ", " }}", " ", "name", "x", "_y", "1", "#", "{", "}", "\n", "\t", "é", "/",
    "%", "-", "if", "|", ".", "\"", "nobody", "{{name}}",
];

fn vars() -> Vec<(String, String)> {
    vec![
        ("name".to_string(), "Ada".to_string()),
        ("x".to_string(), "{{x}} ## {#".to_string()),
        ("_y".to_string(), "".to_string()),
    ]
}

/// What substitution alone makes of a plain template.
fn substituted(template: &str) -> Result<Vec<u8>, FilterError> {
    let mut out = String::new();
    let mut rest = template;
    let mut placeholders = 0;
    while let Some(at) = rest.find("{{") {
        out.push_str(&rest[..at]);
        let end = at + rest[at..].find("}}").unwrap();
        let name = rest[at + 2..end].trim_matches(' ');
        match vars().iter().find(|(k, _)| k == name) {
            Some((_, v)) => out.push_str(v),
            None => return Err(FilterError::Render),
        }
        placeholders += 1;
        rest = &rest[end + 2..];
    }
    out.push_str(rest);
    if placeholders == 0 && out.chars().all(|c| c.is_whitespace()) {
        out.clear();
    }
    Ok(out.into_bytes())
}

fn run(seed: u64, count: usize) {
    let filter = Builder::new().mapper(&vars()).finish();
    let mut state = seed;
    let mut plain = 0;
    for _ in 0..count {
        let mut template = String::new();
        state = state.wrapping_mul(6364136223846793005).wrapping_add(1442695040888963407);
        let len = (state >> 33) % 7;
        for _ in 0..len {
            state = state.wrapping_mul(6364136223846793005).wrapping_add(1442695040888963407);
            template.push_str(PIECES[((state >> 33) % 24) as usize]);
        }
        let chars: Vec<char> = template.chars().collect();
        let expected = if is_plain(&chars) {
            plain += 1;
            substituted(&template)
        } else {
            Err(FilterError::Render)
        };
        assert_eq!(filter.apply(template.as_bytes()), expected, "{:?}", template);
    }
    assert!(plain > count / 10);
}

#[test]
fn plain_templates_are_substituted_first_run() {
    run(1, 150);
}

#[test]
fn plain_templates_are_substituted_second_run() {
    run(2, 150);
}

#[test]
fn plain_templates_are_substituted_third_run() {
    run(3, 150);
}

#[test]
fn whitespace_alone_renders_to_nothing() {
    let filter = Builder::new().finish();
    assert_eq!(filter.apply(b" \n\t "), Ok(vec![]));
    assert_eq!(filter.apply(b" a "), Ok(b" a ".to_vec()));
}

#[test]
fn all_bound_looks_every_name_up() {
    let chars = |t: &str| t.chars().collect::<Vec<char>>();
    assert!(all_bound(&chars("no names"), &vec![]));
    assert!(all_bound(&chars(""), &vars()));
    assert!(all_bound(&chars("{{name}} {{ x }}{{_y}}"), &vars()));
    assert!(!all_bound(&chars("{{name}} {{ nobody }}"), &vars()));
    assert!(!all_bound(&chars("{{Name}}"), &vars()));
    assert!(!all_bound(&chars("{{nam}}"), &vars()));
    assert!(!all_bound(&chars("{{names}}"), &vars()));
    assert!(!all_bound(&chars("{{name}}"), &vec![]));
}

#[test]
fn long_template_renders() {
    let filter = Builder::new().mapper(&vars()).finish();
    let template = "x {{name}}\n".repeat(1000);
    assert_eq!(filter.apply(template.as_bytes()), Ok("x Ada\n".repeat(1000).into_bytes()));
}
