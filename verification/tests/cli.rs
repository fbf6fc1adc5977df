use semfilter::cli::{get_data_def, get_token_sep, parse_cli, DataDef};

#[test]
fn test_simple_args() {
    let _target_vec = vec![DataDef::new("date", "yyyy/MM/dd")];

    let data_defs = get_data_def(Some("date|yyyy/MM/dd")).unwrap();
    let token_sep = get_token_sep(Some(r#"",""#));

    assert!(matches!(data_defs, _target_vec));
    assert!(token_sep.as_str() == r#"",""#);
}

#[test]
fn misc_test() {}

#[test]
fn declarations_are_read_in_order() {
    let defs = get_data_def(Some("date|yyyy/MM/dd,string|.*,number|")).unwrap();
    assert_eq!(defs.len(), 3);
    assert_eq!(defs[0].kind_name(), "date");
    assert_eq!(defs[0].format(), "yyyy/MM/dd");
    assert_eq!(defs[1].kind_name(), "string");
    assert_eq!(defs[1].format(), ".*");
    assert_eq!(defs[2].kind_name(), "number");
    assert_eq!(defs[2].format(), "");
    let more = get_data_def(Some("a|b|c")).unwrap();
    assert_eq!(more[0].kind_name(), "a");
    assert_eq!(more[0].format(), "b");
}

#[test]
fn a_declaration_without_a_bar_is_refused() {
    assert!(get_data_def(Some("date")).is_none());
    assert!(get_data_def(Some("date|x,,string|y")).is_none());
    assert!(get_data_def(Some("")).is_none());
}

#[test]
fn no_argument_declares_nothing() {
    assert_eq!(get_data_def(None).unwrap().len(), 0);
    assert_eq!(DataDef::default().kind_name(), "");
    assert_eq!(DataDef::default().format(), "");
}

#[test]
fn the_separator_is_a_space_unless_given() {
    assert_eq!(get_token_sep(None), " ");
    assert_eq!(get_token_sep(Some("[,;]")), "[,;]");
}

#[test]
fn arguments_are_put_together() {
    let args = parse_cli("date(0) == 1900-01-01", Some("date|yyyy/MM/dd"), None).unwrap();
    assert_eq!(args.expr, "date(0) == 1900-01-01");
    assert_eq!(args.token_regex, " ");
    assert_eq!(args.data_def.len(), 1);
    assert!(parse_cli("date(0) == 1900-01-01", Some("date"), None).is_none());
    let bare = parse_cli("string(0) == a", None, Some(",")).unwrap();
    assert_eq!(bare.token_regex, ",");
    assert_eq!(bare.data_def.len(), 0);
}
