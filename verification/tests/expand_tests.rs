use octobuild::expand::EnvMap;

fn resolver() -> EnvMap {
    let mut env = EnvMap::new();
    env.push("test".to_string(), "foo".to_string());
    env.push("inner".to_string(), "$(bar)".to_string());
    env
}

#[test]
fn test_parse_vars() {
    let env = resolver();
    assert_eq!(env.expand_arg("A$(test)$(inner)$(none)B"), "Afoo$(bar)$(none)B");
    assert_eq!(env.lookup(&"none".to_string()), None);
}

#[test]
fn expand_keeps_unterminated_reference() {
    let env = resolver();
    assert_eq!(env.expand_arg("A$(test"), "A$(test");
}

#[test]
fn expand_plain_text_unchanged() {
    let env = resolver();
    assert_eq!(env.expand_arg("plain/path.cpp"), "plain/path.cpp");
    assert_eq!(env.expand_arg(""), "");
}

#[test]
fn expand_value_is_not_reexpanded() {
    let mut env = EnvMap::new();
    env.push("a".to_string(), "$(b)".to_string());
    env.push("b".to_string(), "boom".to_string());
    assert_eq!(env.expand_arg("$(a)"), "$(b)");
}

#[test]
fn expand_first_binding_wins() {
    let mut env = EnvMap::new();
    env.push("x".to_string(), "first".to_string());
    env.push("x".to_string(), "second".to_string());
    assert_eq!(env.expand_arg("$(x)"), "first");
}

#[test]
fn expand_args_maps_each_argument() {
    let env = resolver();
    let args = vec!["$(test)".to_string(), "keep".to_string()];
    let out = env.expand_args(&args);
    assert_eq!(out, vec!["foo".to_string(), "keep".to_string()]);
}
