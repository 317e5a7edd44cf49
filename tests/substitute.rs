use std::collections::HashMap;

use vigil::{ConfigReader, SubstitutionError};

fn environment(pairs: &[(&str, &str)]) -> HashMap<String, String> {
    pairs
        .iter()
        .map(|(k, v)| (k.to_string(), v.to_string()))
        .collect()
}

const FILE: &str = "[[probe.service]]\nid = \"web\"\nurl = \"http://x:${PORT}\"\n";

#[test]
fn defined_variable_is_replaced() {
    let env = environment(&[("PORT", "8080")]);
    let text = ConfigReader::substitute(FILE, &env).unwrap();
    assert!(text.contains("http://x:8080"));
    assert!(!text.contains("${PORT}"));
    assert_eq!(text, "[[probe.service]]\nid = \"web\"\nurl = \"http://x:8080\"\n");
}

#[test]
fn undefined_variable_fails() {
    let env = environment(&[("HOST", "example.com")]);
    assert_eq!(
        ConfigReader::substitute(FILE, &env),
        Err(SubstitutionError::UndefinedVariable {
            name: "PORT".to_string()
        })
    );
}

#[test]
fn undefined_variable_fails_with_empty_environment() {
    let env = environment(&[]);
    assert_eq!(
        ConfigReader::substitute(FILE, &env),
        Err(SubstitutionError::UndefinedVariable {
            name: "PORT".to_string()
        })
    );
}

#[test]
fn placeholder_inside_identifier_is_replaced() {
    let env = environment(&[("SVC", "api"), ("PORT", "1")]);
    let text = ConfigReader::substitute("id = \"${SVC}-${SVC}\"", &env).unwrap();
    assert_eq!(text, "id = \"api-api\"");
}

#[test]
fn reserved_character_in_value_fails() {
    let env = environment(&[("PORT", "80{80")]);
    assert_eq!(
        ConfigReader::substitute(FILE, &env),
        Err(SubstitutionError::InvalidVariable)
    );
}

#[test]
fn unused_variable_with_reserved_character_is_ignored() {
    let env = environment(&[("P$ORT", "8080"), ("X", "{")]);
    assert_eq!(
        ConfigReader::substitute("plain text", &env),
        Ok("plain text".to_string())
    );
    let env = environment(&[("PORT", "8080"), ("X", "{")]);
    let text = ConfigReader::substitute(FILE, &env).unwrap();
    assert!(text.contains("http://x:8080"));
}

#[test]
fn placeholder_free_text_is_the_same_under_every_environment() {
    let text = "[[probe.service]]\nid = \"a\"\n";
    for env in [environment(&[]), environment(&[("A", "1")]), environment(&[("B", "}")])] {
        assert_eq!(ConfigReader::substitute(text, &env), Ok(text.to_string()));
    }
}

#[test]
fn substitution_follows_the_placeholders_of_the_file() {
    let env = environment(&[("A", "")]);
    assert_eq!(
        ConfigReader::substitute("$${A}{A}", &env),
        Ok("${A}".to_string())
    );
}

#[test]
fn text_without_placeholder_is_unchanged() {
    let env = environment(&[("PORT", "8080")]);
    let text = ConfigReader::substitute("a = \"$ { } ${}\"", &env).unwrap();
    assert_eq!(text, "a = \"$ { } ${}\"");
}

#[test]
fn first_undefined_placeholder_is_named() {
    let env = environment(&[("B", "b")]);
    assert_eq!(
        ConfigReader::substitute("x ${} ${B} ${ÄB} ${C}", &env),
        Err(SubstitutionError::UndefinedVariable {
            name: "ÄB".to_string()
        })
    );
}

#[test]
fn undefined_variable_comes_before_invalid_value() {
    let env = environment(&[("A", "{")]);
    assert_eq!(
        ConfigReader::substitute("${A} ${B}", &env),
        Err(SubstitutionError::UndefinedVariable {
            name: "B".to_string()
        })
    );
    assert_eq!(
        ConfigReader::substitute("${A} ${A}", &env),
        Err(SubstitutionError::InvalidVariable)
    );
}

#[test]
fn empty_text_is_unchanged() {
    assert_eq!(
        ConfigReader::substitute("", &environment(&[])),
        Ok(String::new())
    );
}
