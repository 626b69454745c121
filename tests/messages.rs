use fondabots_lib::errors::{decimal_string, Error};
use fondabots_lib::multimessage::{page_labels, parse_page_button, turn_page};

#[test]
fn error_messages() {
    assert_eq!(Error::ObjectNotFound("x".to_string()).message(), "Objet non trouvé : x");
    assert_eq!(Error::UnloadedItem(42).message(), "Affichan 42 appelé mais non chargé.");
    assert_eq!(
        Error::InteractionIDError("mm1-q".to_string(), 7).message(),
        "Erreur de format de l’identifiant mm1-q sur le message 7"
    );
    assert_eq!(Error::Generic.message(), "Erreur de bot générique.");
    assert_eq!(Error::NoneError.message(), "Option None non-attendue.");
    assert_eq!(Error::LibError("boom".to_string()).message(), "boom");
    assert_eq!(Error::EmptyContainer("e".to_string()).message(), "Conteneur vide : e");
    assert_eq!(Error::YamlParseError("y".to_string()).message(), "Erreur de formatage yaml : y");
    assert_eq!(Error::CommandUseError("c".to_string()).message(), "Erreur d’utilisation de la commande : c");
}

#[test]
fn page_buttons() {
    let chars = |s: &str| s.chars().collect::<Vec<char>>();
    assert_eq!(parse_page_button(&chars("mm1234-n")), Some((chars("mm1234"), true)));
    assert_eq!(parse_page_button(&chars("mm1234-p")), Some((chars("mm1234"), false)));
    assert_eq!(parse_page_button(&chars("mm")), Some((chars("mm"), false)));
    assert_eq!(parse_page_button(&chars("close-n")), None);
}

#[test]
fn turning_pages_stays_within_the_pages() {
    assert_eq!(turn_page(0, true, 3), (1, false, false));
    assert_eq!(turn_page(1, true, 3), (2, false, true));
    assert_eq!(turn_page(2, true, 3), (2, false, true));
    assert_eq!(turn_page(1, false, 3), (0, true, false));
    assert_eq!(turn_page(0, false, 3), (0, true, false));
    assert_eq!(turn_page(0, true, 1), (0, true, true));
}

#[test]
fn decimal_strings() {
    assert_eq!(decimal_string(0), "0");
    assert_eq!(decimal_string(7), "7");
    assert_eq!(decimal_string(1234567890), "1234567890");
    assert_eq!(decimal_string(u64::MAX), "18446744073709551615");
}

#[test]
fn page_footers_count_from_one() {
    assert_eq!(page_labels(3), vec!["Page 1 / 3".to_string(), "Page 2 / 3".to_string(), "Page 3 / 3".to_string()]);
    assert!(page_labels(0).is_empty());
    assert_eq!(page_labels(12)[11], "Page 12 / 12");
}
