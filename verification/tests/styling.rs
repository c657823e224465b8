use docstyle::ParseError;
use docstyle::css::parse_css;
use docstyle::style::Selector;
use docstyle::style::Unit;
use docstyle::style::Value;

fn simple(sel: &Selector) -> &docstyle::style::SimpleSelector {
    let Selector::Simple(ss) = sel;
    ss
}

#[test]
fn selectors_sort_descending_by_specificity() {
    let sheet = parse_css("div.note, .note, #x, * { }").unwrap();
    assert_eq!(sheet.rules.len(), 1);
    let sels = &sheet.rules[0].selectors;
    assert_eq!(sels.len(), 4);
    // #x: (1,0,0)
    assert_eq!(simple(&sels[0]).id.as_ref().unwrap(), "x");
    // div.note: (0,1,1)
    assert_eq!(simple(&sels[1]).tag_name.as_ref().unwrap(), "div");
    assert_eq!(simple(&sels[1]).class[0], "note");
    // .note: (0,1,0)
    assert!(simple(&sels[2]).tag_name.is_none());
    assert_eq!(simple(&sels[2]).class[0], "note");
    // *: (0,0,0)
    assert!(simple(&sels[3]).tag_name.is_none());
    assert!(simple(&sels[3]).id.is_none());
    assert_eq!(simple(&sels[3]).class.len(), 0);
    assert_eq!(sels[0].specificity(), (1, 0, 0));
    assert_eq!(sels[1].specificity(), (0, 1, 1));
    assert_eq!(sels[2].specificity(), (0, 1, 0));
    assert_eq!(sels[3].specificity(), (0, 0, 0));
}

#[test]
fn equal_specificity_selectors_keep_their_order() {
    let sheet = parse_css("em, a, strong { }").unwrap();
    let sels = &sheet.rules[0].selectors;
    assert_eq!(sels.len(), 3);
    assert_eq!(simple(&sels[0]).tag_name.as_ref().unwrap(), "em");
    assert_eq!(simple(&sels[1]).tag_name.as_ref().unwrap(), "a");
    assert_eq!(simple(&sels[2]).tag_name.as_ref().unwrap(), "strong");
}

#[test]
fn equal_specificity_order_is_kept_among_mixed_selectors() {
    let sheet = parse_css(".x, em, .y, a { }").unwrap();
    let sels = &sheet.rules[0].selectors;
    assert_eq!(sels.len(), 4);
    assert_eq!(simple(&sels[0]).class[0], "x");
    assert_eq!(simple(&sels[1]).class[0], "y");
    assert_eq!(simple(&sels[2]).tag_name.as_ref().unwrap(), "em");
    assert_eq!(simple(&sels[3]).tag_name.as_ref().unwrap(), "a");
}

#[test]
fn value_literals_parse_exactly() {
    let sheet = parse_css("d { color: #336699; margin: 20px; display: block; }").unwrap();
    let ds = &sheet.rules[0].declarations;
    assert_eq!(ds.len(), 3);

    assert_eq!(ds[0].name, "color");
    match &ds[0].value {
        Value::ColorValue(c) => {
            assert_eq!((c.r, c.g, c.b, c.a), (51, 102, 153, 255));
        }
        _ => panic!("expected a color"),
    }

    assert_eq!(ds[1].name, "margin");
    match &ds[1].value {
        Value::Length(n, Unit::Px) => {
            assert!(!n.negative);
            assert_eq!(n.int_digits, "20");
            assert_eq!(n.frac_digits, "");
        }
        _ => panic!("expected a length"),
    }

    assert_eq!(ds[2].name, "display");
    match &ds[2].value {
        Value::Keyword(k) => assert_eq!(k, "block"),
        _ => panic!("expected a keyword"),
    }
}

#[test]
fn empty_declaration_block_yields_one_selector_no_declarations() {
    let sheet = parse_css("div {}").unwrap();
    assert_eq!(sheet.rules.len(), 1);
    assert_eq!(sheet.rules[0].selectors.len(), 1);
    assert_eq!(
        simple(&sheet.rules[0].selectors[0]).tag_name.as_ref().unwrap(),
        "div"
    );
    assert_eq!(sheet.rules[0].declarations.len(), 0);
}

#[test]
fn empty_stylesheet_has_no_rules() {
    let sheet = parse_css("").unwrap();
    assert_eq!(sheet.rules.len(), 0);
    let sheet2 = parse_css("   \n\t ").unwrap();
    assert_eq!(sheet2.rules.len(), 0);
}

#[test]
fn rules_come_back_in_source_order() {
    let sheet = parse_css("a { } b { } c { }").unwrap();
    assert_eq!(sheet.rules.len(), 3);
    assert_eq!(
        simple(&sheet.rules[0].selectors[0]).tag_name.as_ref().unwrap(),
        "a"
    );
    assert_eq!(
        simple(&sheet.rules[1].selectors[0]).tag_name.as_ref().unwrap(),
        "b"
    );
    assert_eq!(
        simple(&sheet.rules[2].selectors[0]).tag_name.as_ref().unwrap(),
        "c"
    );
}

#[test]
fn duplicate_declarations_are_kept_in_order() {
    let sheet = parse_css("a { display: block; display: none; }").unwrap();
    let ds = &sheet.rules[0].declarations;
    assert_eq!(ds.len(), 2);
    match (&ds[0].value, &ds[1].value) {
        (Value::Keyword(x), Value::Keyword(y)) => {
            assert_eq!(x, "block");
            assert_eq!(y, "none");
        }
        _ => panic!("expected keywords"),
    }
}

#[test]
fn compound_selector_collects_tag_id_and_classes() {
    let sheet = parse_css("div#id.a.b { }").unwrap();
    let ss = simple(&sheet.rules[0].selectors[0]);
    assert_eq!(ss.tag_name.as_ref().unwrap(), "div");
    assert_eq!(ss.id.as_ref().unwrap(), "id");
    assert_eq!(ss.class.len(), 2);
    assert_eq!(ss.class[0], "a");
    assert_eq!(ss.class[1], "b");
    assert_eq!(sheet.rules[0].selectors[0].specificity(), (1, 2, 1));
}

#[test]
fn later_id_in_a_selector_wins() {
    let sheet = parse_css("#a#b { }").unwrap();
    let ss = simple(&sheet.rules[0].selectors[0]);
    assert_eq!(ss.id.as_ref().unwrap(), "b");
    assert_eq!(sheet.rules[0].selectors[0].specificity(), (1, 0, 0));
}

#[test]
fn negative_and_fractional_lengths_parse() {
    let sheet = parse_css("a { margin: -5.25px; top: +0.5px; }").unwrap();
    let ds = &sheet.rules[0].declarations;
    match &ds[0].value {
        Value::Length(n, Unit::Px) => {
            assert!(n.negative);
            assert_eq!(n.int_digits, "5");
            assert_eq!(n.frac_digits, "25");
        }
        _ => panic!("expected a length"),
    }
    match &ds[1].value {
        Value::Length(n, Unit::Px) => {
            assert!(!n.negative);
            assert_eq!(n.int_digits, "0");
            assert_eq!(n.frac_digits, "5");
        }
        _ => panic!("expected a length"),
    }
}

#[test]
fn mixed_case_hex_color_parses() {
    let sheet = parse_css("a { color: #AbCdEf; }").unwrap();
    match &sheet.rules[0].declarations[0].value {
        Value::ColorValue(c) => {
            assert_eq!((c.r, c.g, c.b, c.a), (0xAB, 0xCD, 0xEF, 255));
        }
        _ => panic!("expected a color"),
    }
}

#[test]
fn unknown_unit_is_rejected() {
    assert_eq!(
        parse_css("a { margin: 20em; }").unwrap_err(),
        ParseError::UnknownUnit
    );
    assert_eq!(
        parse_css("a { margin: 20; }").unwrap_err(),
        ParseError::UnknownUnit
    );
}

#[test]
fn short_color_literal_is_rejected() {
    assert_eq!(
        parse_css("a { color: #12; }").unwrap_err(),
        ParseError::InvalidColorLiteral
    );
    assert_eq!(
        parse_css("a { color: #12345g; }").unwrap_err(),
        ParseError::InvalidColorLiteral
    );
}

#[test]
fn empty_name_where_one_is_required_is_rejected() {
    assert_eq!(
        parse_css("a { : block; }").unwrap_err(),
        ParseError::EmptyIdentifier
    );
}

#[test]
fn missing_colon_or_semicolon_is_malformed() {
    assert_eq!(
        parse_css("a { display block; }").unwrap_err(),
        ParseError::MalformedDeclaration
    );
    assert_eq!(
        parse_css("a { display: block }").unwrap_err(),
        ParseError::MalformedDeclaration
    );
}

#[test]
fn combinators_are_rejected() {
    assert_eq!(
        parse_css("div > p { }").unwrap_err(),
        ParseError::UnexpectedCharacterInSelectorList
    );
}

#[test]
fn truncated_stylesheet_runs_out_of_input() {
    assert_eq!(
        parse_css("div ").unwrap_err(),
        ParseError::UnexpectedEndOfInput
    );
    assert_eq!(
        parse_css("div { display: block; ").unwrap_err(),
        ParseError::UnexpectedEndOfInput
    );
}
