use lib::canon::exact_args;
use lib::error::{ErrorKind, LanguageError};
use lib::presentation::{present_system_message, render_error_for_presentation, PresentationLanguage, UkNames};
use lib::reader::parse;
use lib::syntax::Span;

const REGISTRY: &str = "(0002 (en atom stable) (uk атом? stable) (sa aṇu stable))\n(0005 (en car stable) (uk перше stable) (sa ādi candidate))";

#[test]
fn ukrainian_error_presentation_labels_the_location_in_ukrainian() {
    let names = UkNames::from_registry(REGISTRY);
    let source = "(car 5)";
    let error = LanguageError::new(ErrorKind::Type, "car expects a non-empty list".to_string(), Span { start: 0, end: 7 });
    let rendered = render_error_for_presentation(&error, source, PresentationLanguage::Ukrainian, &names);
    assert!(rendered.contains("Помилка типу"), "{rendered}");
    assert!(rendered.contains("перше очікує непорожній список"), "{rendered}");
    assert!(rendered.contains("рядок 1, стовпець 1"), "{rendered}");
    assert!(!rendered.contains("line/riadok/Zeile"), "{rendered}");
    assert!(!rendered.contains("car expects"), "{rendered}");
    assert_eq!(
        rendered,
        "Помилка типу: перше очікує непорожній список\n  --> рядок 1, стовпець 1\n  |\n1 | (car 5)\n  | ^^^^^^^"
    );
}

#[test]
fn ukrainian_parser_errors_are_human_facing() {
    let names = UkNames::from_registry(REGISTRY);
    let source = ")";
    let error = parse(source).expect_err("parse error");
    let rendered = render_error_for_presentation(&error, source, PresentationLanguage::Ukrainian, &names);
    assert!(rendered.contains("Синтаксична помилка"), "{rendered}");
    assert!(rendered.contains("неочікувана закривна дужка"), "{rendered}");
}

#[test]
fn ukrainian_unknown_symbol_keeps_the_symbol() {
    let names = UkNames::from_registry(REGISTRY);
    let message = "unknown symbol · невідомий символ · unbekanntes Symbol: невідоме";
    assert_eq!(
        present_system_message(message, PresentationLanguage::Ukrainian, &names),
        "Невідомий символ: невідоме"
    );
    assert_eq!(present_system_message("unknown symbol", PresentationLanguage::Ukrainian, &names), "Невідомий символ: ?");
}

#[test]
fn ukrainian_exact_arity_names_the_primitive_by_its_ukrainian_spelling() {
    let names = UkNames::from_registry(REGISTRY);
    let error = exact_args("atom", 0, 1, Span { start: 0, end: 7 }).unwrap_err();
    let rendered = render_error_for_presentation(&error, "(атом?)", PresentationLanguage::Ukrainian, &names);
    assert!(rendered.contains("атом?: очікувалося 1; отримано 0"), "{rendered}");
    assert!(rendered.starts_with("Помилка кількості аргументів: "), "{rendered}");
}

#[test]
fn other_languages_keep_the_canonical_text() {
    let names = UkNames::from_registry(REGISTRY);
    let error = LanguageError::new(ErrorKind::Type, "boom".to_string(), Span { start: 0, end: 1 });
    let rendered = render_error_for_presentation(&error, "x", PresentationLanguage::Canonical, &names);
    assert!(rendered.starts_with("boom"));
    assert_eq!(rendered, error.render("x"));
    assert_eq!(present_system_message("division by zero", PresentationLanguage::English, &names), "division by zero");
}

#[test]
fn expectations_and_counts_are_translated() {
    let names = UkNames::from_registry(REGISTRY);
    let uk = |m: &str| present_system_message(m, PresentationLanguage::Ukrainian, &names);
    assert_eq!(uk("PRIM_CONS expects exactly 2 argument(s)"), "сполучити очікує рівно 2 аргументи");
    assert_eq!(uk("f expects exactly 1 argument(s)"), "f очікує рівно 1 аргумент");
    assert_eq!(uk("f expects exactly 11 argument(s)"), "f очікує рівно 11 аргументів");
    assert_eq!(uk("f expects exactly 5 argument(s)"), "f очікує рівно 5 аргументів");
    assert_eq!(uk("f expects exactly 22 argument(s)"), "f очікує рівно 22 аргументи");
    assert_eq!(uk("atom expects two atoms"), "атом? очікує два атоми");
    assert_eq!(uk("f expects a vector of numbers"), "f очікує a вектор of числоs");
    assert_eq!(uk("division by zero · ділення на нуль"), "Ділення на нуль");
    assert_eq!(uk("  unclosed list  · x"), "незакритий список");
    assert_eq!(uk("car: resource limit reached"), "перше: досягнуто межі ресурсу");
    assert_eq!(uk("invalid numeric literal"), "некоректний числовий літерал");
}

#[test]
fn later_rows_override_earlier_names() {
    let names = UkNames::from_registry("(0001 (en x stable) (uk перший stable))\n(0002 (en x stable) (uk другий stable))");
    assert_eq!(present_system_message("x expects two atoms", PresentationLanguage::Ukrainian, &names), "другий очікує два атоми");
    assert_eq!(present_system_message("0001 expects two atoms", PresentationLanguage::Ukrainian, &names), "перший очікує два атоми");
}
