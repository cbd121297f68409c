use iam_auth_controller::facts::Facts;
use iam_auth_controller::template::Template;

fn facts_of(pairs: &[(&str, &str)]) -> Facts {
    let mut f = Facts::new();
    for (k, v) in pairs {
        f.insert(k.to_string(), v.to_string());
    }
    f
}

#[test]
fn render_without_markers_is_identity() {
    let t = Template::new("arn:aws:iam::123456789012:role/admin");
    let vals = facts_of(&[("accountId", "111")]);
    assert_eq!(t.render(&vals), "arn:aws:iam::123456789012:role/admin");
}

#[test]
fn render_empty_template() {
    let t = Template::new("");
    let vals = facts_of(&[]);
    assert_eq!(t.render(&vals), "");
}

#[test]
fn render_two_markers() {
    let t = Template::new("{{a}}-{{b}}");
    let vals = facts_of(&[("a", "X"), ("b", "Y")]);
    assert_eq!(t.render(&vals), "X-Y");
}

#[test]
fn render_missing_name_left_verbatim() {
    let t = Template::new("{{missing}}");
    let vals = facts_of(&[]);
    assert_eq!(t.render(&vals), "{{missing}}");
}

#[test]
fn render_empty_value() {
    let t = Template::new("pre{{a}}post");
    let vals = facts_of(&[("a", "")]);
    assert_eq!(t.render(&vals), "prepost");
}

#[test]
fn render_adjacent_markers() {
    let t = Template::new("{{a}}{{b}}");
    let vals = facts_of(&[("a", "X"), ("b", "Y")]);
    assert_eq!(t.render(&vals), "XY");
}

#[test]
fn render_marker_at_start_and_end() {
    let t = Template::new("{{a}}mid{{b}}");
    let vals = facts_of(&[("a", "S"), ("b", "E")]);
    assert_eq!(t.render(&vals), "SmidE");
}

#[test]
fn render_unclosed_marker_left_verbatim() {
    // The name may not contain `}`, so this is no marker at all.
    let t = Template::new("{{a}b}}");
    let vals = facts_of(&[("a", "X"), ("a}b", "Y")]);
    assert_eq!(t.render(&vals), "{{a}b}}");
}

#[test]
fn render_empty_name() {
    let t = Template::new("{{}}");
    let unbound = facts_of(&[]);
    assert_eq!(t.render(&unbound), "{{}}");
    let bound = facts_of(&[("", "Z")]);
    assert_eq!(t.render(&bound), "Z");
}

#[test]
fn render_extra_open_brace_belongs_to_name() {
    // Scanning is leftmost and greedy: the name of the single marker is `{a`.
    let t = Template::new("{{{a}}");
    let unbound = facts_of(&[("a", "X")]);
    assert_eq!(t.render(&unbound), "{{{a}}");
    let bound = facts_of(&[("{a", "X")]);
    assert_eq!(t.render(&bound), "X");
}

#[test]
fn render_mixed_resolution() {
    let t = Template::new("a {{x}} b {{y}} c");
    let vals = facts_of(&[("x", "1")]);
    assert_eq!(t.render(&vals), "a 1 b {{y}} c");
}

#[test]
fn render_later_binding_wins() {
    let mut vals = Facts::new();
    vals.insert("a".to_string(), "first".to_string());
    vals.insert("a".to_string(), "second".to_string());
    let t = Template::new("{{a}}");
    assert_eq!(t.render(&vals), "second");
}
