use cspect::annotate::{annotate_string, Annotater, Registry};
use cspect::placeholder::{parse_string, ParsedElement, Placeholder};

struct CapitalizeAnnotator;

impl Annotater for CapitalizeAnnotator {
    fn accepts_keys(&self) -> Vec<String> {
        vec!["cap".to_string()]
    }

    fn annotate(&mut self, placeholder: &Placeholder) -> Result<Option<String>, String> {
        if placeholder.kind == "cap" {
            Ok(Some(placeholder.value.to_uppercase()))
        } else {
            Ok(None)
        }
    }
}

struct DecliningAnnotator;

impl Annotater for DecliningAnnotator {
    fn accepts_keys(&self) -> Vec<String> {
        vec!["skip".to_string(), "cap".to_string()]
    }

    fn annotate(&mut self, placeholder: &Placeholder) -> Result<Option<String>, String> {
        if placeholder.kind == "cap" {
            Ok(Some(format!("<{}>", placeholder.value)))
        } else {
            Ok(None)
        }
    }
}

struct FailingOrUpper;

impl Annotater for FailingOrUpper {
    fn accepts_keys(&self) -> Vec<String> {
        vec!["bad".to_string(), "cap".to_string()]
    }

    fn annotate(&mut self, placeholder: &Placeholder) -> Result<Option<String>, String> {
        if placeholder.kind == "bad" {
            Err("lookup failed".to_string())
        } else {
            Ok(Some(placeholder.value.to_uppercase()))
        }
    }
}

struct FailingAnnotator;

impl Annotater for FailingAnnotator {
    fn accepts_keys(&self) -> Vec<String> {
        vec!["bad".to_string()]
    }

    fn annotate(&mut self, _placeholder: &Placeholder) -> Result<Option<String>, String> {
        Err("lookup failed".to_string())
    }
}

#[test]
fn test_parse_only_placeholder() {
    let input = "$kind:value";
    let result = parse_string(input);

    assert_eq!(result.len(), 1);
    assert_eq!(
        result[0],
        ParsedElement::Placeholder(Placeholder {
            kind: "kind".to_string(),
            value: "value".to_string()
        })
    );
}

#[test]
fn test_parse_mixed_content() {
    let input = "Hello $name:Silvano and welcome to $place:ETH!";
    let result = parse_string(input);

    assert_eq!(result.len(), 4);
    assert_eq!(result[0], ParsedElement::Text("Hello ".to_string()));
    assert_eq!(
        result[1],
        ParsedElement::Placeholder(Placeholder {
            kind: "name".to_string(),
            value: "Silvano".to_string()
        })
    );
    assert_eq!(
        result[2],
        ParsedElement::Text(" and welcome to ".to_string())
    );
    assert_eq!(
        result[3],
        ParsedElement::Placeholder(Placeholder {
            kind: "place".to_string(),
            value: "ETH!".to_string()
        })
    );
}

#[test]
fn test_annotate_string_capitalize() {
    let mut annotators: Registry<CapitalizeAnnotator> = Registry::new();
    annotators.register(CapitalizeAnnotator);

    let mut test_string = "Hello, $cap:world !".to_string();
    let result = annotate_string(&mut test_string, &mut annotators);

    assert!(result);
    assert_eq!(test_string, "Hello, WORLD !");
}

#[test]
fn test_annotate_string_no_matching_annotator() {
    let mut annotators: Registry<CapitalizeAnnotator> = Registry::new();

    let mut test_string = "Hello $unknown:world".to_string();
    let result = annotate_string(&mut test_string, &mut annotators);

    assert!(!result);
    assert_eq!(test_string, "Hello $unknown:world");
}

#[test]
fn test_annotate_string_mixed_placeholders() {
    let mut annotators: Registry<CapitalizeAnnotator> = Registry::new();
    annotators.register(CapitalizeAnnotator);

    let mut test_string = "Process $cap:main with $other:value and $cap:thread".to_string();
    let result = annotate_string(&mut test_string, &mut annotators);

    assert!(result);
    assert_eq!(test_string, "Process MAIN with $other:value and THREAD");
}

#[test]
fn parse_invalid_dollar_is_literal_text() {
    let result = parse_string("cost $5 and $:x and $k: end$");
    assert_eq!(result, vec![ParsedElement::Text("cost $5 and $:x and $k: end$".to_string())]);
}

#[test]
fn parse_value_stops_at_whitespace_and_dollar() {
    let result = parse_string("$a:1$b:2\tx");
    assert_eq!(
        result,
        vec![
            ParsedElement::Placeholder(Placeholder { kind: "a".to_string(), value: "1".to_string() }),
            ParsedElement::Placeholder(Placeholder { kind: "b".to_string(), value: "2".to_string() }),
            ParsedElement::Text("\tx".to_string()),
        ]
    );
}

#[test]
fn parse_value_keeps_later_colons() {
    let result = parse_string("$k:a:b");
    assert_eq!(
        result,
        vec![ParsedElement::Placeholder(Placeholder { kind: "k".to_string(), value: "a:b".to_string() })]
    );
}

#[test]
fn parse_empty_string() {
    assert!(parse_string("").is_empty());
}

#[test]
fn parse_is_lossless_on_mixed_input() {
    let input = "x $a:1 $ $b: $c:d$e:f g";
    let parts = parse_string(input);
    let mut joined = String::new();
    for p in parts {
        match p {
            ParsedElement::Text(t) => joined.push_str(&t),
            ParsedElement::Placeholder(ph) => joined.push_str(&format!("${}:{}", ph.kind, ph.value)),
        }
    }
    assert_eq!(joined, input);
}

#[test]
fn annotate_string_without_placeholders_is_unchanged() {
    let mut annotators: Registry<CapitalizeAnnotator> = Registry::new();
    annotators.register(CapitalizeAnnotator);
    let mut s = "plain text, no holes: $ alone".to_string();
    assert!(!annotate_string(&mut s, &mut annotators));
    assert_eq!(s, "plain text, no holes: $ alone");
}

#[test]
fn annotate_string_declined_placeholder_keeps_bare_value_when_rewritten() {
    let mut annotators: Registry<DecliningAnnotator> = Registry::new();
    annotators.register(DecliningAnnotator);
    let mut s = "$skip:v and $cap:w and $none:z".to_string();
    assert!(annotate_string(&mut s, &mut annotators));
    assert_eq!(s, "v and <w> and $none:z");
}

#[test]
fn annotate_string_lone_decline_splices_bare_value() {
    let mut annotators: Registry<DecliningAnnotator> = Registry::new();
    annotators.register(DecliningAnnotator);
    let mut s = "$skip:v".to_string();
    assert!(annotate_string(&mut s, &mut annotators));
    assert_eq!(s, "v");
}

#[test]
fn annotate_string_resolver_error_keeps_placeholder() {
    let mut annotators: Registry<FailingAnnotator> = Registry::new();
    annotators.register(FailingAnnotator);
    let mut s = "a $bad:1".to_string();
    assert!(!annotate_string(&mut s, &mut annotators));
    assert_eq!(s, "a $bad:1");
}

#[test]
fn annotate_string_resolver_error_does_not_stop_others() {
    let mut annotators: Registry<FailingOrUpper> = Registry::new();
    annotators.register(FailingOrUpper);
    let mut s = "$bad:1 then $cap:x".to_string();
    assert!(annotate_string(&mut s, &mut annotators));
    assert_eq!(s, "$bad:1 then X");
}

#[test]
fn registry_lookup_later_registration_wins() {
    let mut annotators: Registry<DecliningAnnotator> = Registry::new();
    let first = annotators.register(DecliningAnnotator);
    let second = annotators.register(DecliningAnnotator);
    assert_eq!(annotators.lookup(&"cap".to_string()), Some(second));
    assert_ne!(first, second);
    assert_eq!(annotators.lookup(&"nothing".to_string()), None);
}

#[test]
fn placeholder_value_ends_at_any_whitespace() {
    let result = parse_string("$k:v\x0cw $a:b\u{a0}c");
    assert_eq!(
        result,
        vec![
            ParsedElement::Placeholder(Placeholder { kind: "k".to_string(), value: "v".to_string() }),
            ParsedElement::Text("\x0cw ".to_string()),
            ParsedElement::Placeholder(Placeholder { kind: "a".to_string(), value: "b".to_string() }),
            ParsedElement::Text("\u{a0}c".to_string()),
        ]
    );
}

#[test]
fn unknown_kinds_are_collected() {
    let mut annotators: Registry<CapitalizeAnnotator> = Registry::new();
    annotators.register(CapitalizeAnnotator);
    let mut s = "$x:1 $cap:a $y:2".to_string();
    assert!(annotate_string(&mut s, &mut annotators));
    assert_eq!(annotators.take_unknown_kinds(), vec!["x".to_string(), "y".to_string()]);
    assert!(annotators.take_unknown_kinds().is_empty());
}
