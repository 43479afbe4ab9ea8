use workpool::slug::{conv, is_slug, slugify};

#[test]
fn test_conv_lettera_accentata() {
    assert_eq!(conv('à'), 'a');
    assert_eq!(conv('ç'), 'c');
    assert_eq!(conv('ø'), 'o');
}

#[test]
fn test_conv_lettera_non_accentata() {
    assert_eq!(conv('a'), 'a');
    assert_eq!(conv('Z'), 'z');
}

#[test]
fn test_conv_lettera_non_ammessa_sconosciuta() {
    assert_eq!(conv('!'), '-');
    assert_eq!(conv('@'), '-');
}

#[test]
fn test_conv_lettera_accentata_non_compressa() {
    assert_eq!(conv('ῶ'), '-');
}

#[test]
fn test_slugify_parole_separate_da_spazio() {
    let s = "Questo è un test";
    assert_eq!(slugify(s), "questo-e-un-test");
}

#[test]
fn test_slugify_con_caratteri_accentati() {
    let s = "Città già usate";
    assert_eq!(slugify(s), "citta-gia-usate");
}

#[test]
fn test_slugify_stringa_vuota() {
    let s = "";
    assert_eq!(slugify(s), "");
}

#[test]
fn test_slugify_con_spazi_consecutivi() {
    let s = "questo  è   un    test";
    assert_eq!(slugify(s), "questo-e-un-test");
}

#[test]
fn test_slugify_caratteri_non_validi_consecutivi() {
    let s = "test!!!@@##slug";
    assert_eq!(slugify(s), "test-slug");
}

#[test]
fn test_slugify_solo_caratteri_non_validi() {
    let s = "!@#$%^&*()";
    assert_eq!(slugify(s), "");
}

#[test]
fn test_slugify_spazio_finale() {
    let s = "slug finale ";
    assert_eq!(slugify(s), "slug-finale");
}

#[test]
fn test_slugify_caratteri_non_validi_finali() {
    let s = "slug???";
    assert_eq!(slugify(s), "slug");
}

#[test]
fn conv_maps_capital_ascii_and_late_table_entries() {
    assert_eq!(conv('A'), 'a');
    assert_eq!(conv('ż'), 'z');
    assert_eq!(conv('ß'), 's');
    assert_eq!(conv('5'), '-');
}

#[test]
fn slugify_drops_leading_separators() {
    assert_eq!(slugify("  --Hello World"), "hello-world");
}

#[test]
fn is_slug_compares_with_own_slug() {
    assert!(!is_slug("Hello String"));
    assert!(is_slug("hello-slice"));
    assert!(is_slug(""));
}
