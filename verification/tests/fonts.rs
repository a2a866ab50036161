use squish::fonts::fallback_fonts;
use squish::fonts::initialize_fonts;
use squish::fonts::is_valid_font_name;

fn names(list: &[&str]) -> Vec<String> {
    let mut v = Vec::new();
    for s in list {
        v.push(s.to_string());
    }
    v
}

const SORTED_FALLBACK: [&str; 7] = [
    "Arial",
    "Courier New",
    "Georgia",
    "Helvetica",
    "Inter",
    "Times New Roman",
    "Verdana",
];

#[test]
fn example_host_report() {
    let out = initialize_fonts(Some(names(&["Verdana", "Arial", "Zapfino", "Verdana"])));
    assert_eq!(
        out,
        names(&[
            "Arial",
            "Courier New",
            "Georgia",
            "Helvetica",
            "Inter",
            "Times New Roman",
            "Verdana",
            "Zapfino",
        ])
    );
}

#[test]
fn enumeration_failure_gives_sorted_fallback() {
    assert_eq!(initialize_fonts(None), names(&SORTED_FALLBACK));
}

#[test]
fn no_valid_names_gives_sorted_fallback() {
    let out = initialize_fonts(Some(names(&["", "\u{2605}Font\u{2605}"])));
    assert_eq!(out, names(&SORTED_FALLBACK));
}

#[test]
fn empty_host_report_gives_sorted_fallback() {
    assert_eq!(initialize_fonts(Some(Vec::new())), names(&SORTED_FALLBACK));
}

#[test]
fn invalid_names_never_appear() {
    let out = initialize_fonts(Some(names(&["\u{2605}Font\u{2605}", "", "Zapfino"])));
    assert!(!out.contains(&"\u{2605}Font\u{2605}".to_string()));
    assert!(!out.contains(&"".to_string()));
    assert!(out.contains(&"Zapfino".to_string()));
}

#[test]
fn non_ascii_alphabetic_names_are_kept() {
    let out = initialize_fonts(Some(names(&["Caf\u{e9}"])));
    assert!(out.contains(&"Caf\u{e9}".to_string()));
}

#[test]
fn fallback_always_present() {
    let out = initialize_fonts(Some(names(&["Zapfino", "AAAA"])));
    for f in SORTED_FALLBACK {
        assert!(out.contains(&f.to_string()));
    }
}

#[test]
fn output_sorted_without_duplicates() {
    let out = initialize_fonts(Some(names(&[
        "Zapfino", "Arial", "Zapfino", "Bookman", "Arial", "Bookman",
    ])));
    for w in out.windows(2) {
        assert!(w[0] < w[1]);
    }
}

#[test]
fn valid_name_filter() {
    assert!(is_valid_font_name("Arial"));
    assert!(is_valid_font_name("Caf\u{e9}"));
    assert!(!is_valid_font_name(""));
    assert!(!is_valid_font_name("\u{2605}Font\u{2605}"));
}

#[test]
fn fallback_list_contents() {
    assert_eq!(
        fallback_fonts(),
        names(&[
            "Arial",
            "Times New Roman",
            "Helvetica",
            "Courier New",
            "Georgia",
            "Verdana",
            "Inter",
        ])
    );
}
