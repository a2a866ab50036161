use squish::fonts::fonts_loaded;
use squish::fonts::get_system_fonts;
use squish::fonts::initialize_empty_state;
use squish::fonts::FontState;

fn names(list: &[&str]) -> Vec<String> {
    let mut v = Vec::new();
    for s in list {
        v.push(s.to_string());
    }
    v
}

#[test]
fn empty_state_starts_unloaded() {
    let (fonts, loaded) = initialize_empty_state();
    assert!(fonts.is_empty());
    assert!(!loaded);
    let state = FontState { fonts, loaded };
    assert!(!fonts_loaded(&state));
}

#[test]
fn second_query_uses_cache() {
    let (fonts, loaded) = initialize_empty_state();
    let mut state = FontState { fonts, loaded };
    let first = get_system_fonts(&mut state, Some(names(&["Zapfino"])));
    assert!(fonts_loaded(&state));
    // A reload would pick up "Bookman"; the cached catalog must win.
    let second = get_system_fonts(&mut state, Some(names(&["Bookman"])));
    assert_eq!(first, second);
    assert!(first.contains(&"Zapfino".to_string()));
    assert!(!second.contains(&"Bookman".to_string()));
}

#[test]
fn many_callers_get_identical_catalogs() {
    let (fonts, loaded) = initialize_empty_state();
    let mut state = FontState { fonts, loaded };
    let first = get_system_fonts(&mut state, Some(names(&["Zapfino"])));
    let reports = [Some(names(&["Bookman"])), None, Some(names(&[""]))];
    for host in reports {
        assert_eq!(get_system_fonts(&mut state, host), first);
    }
}

#[test]
fn cached_query_needs_no_host_report() {
    let (fonts, loaded) = initialize_empty_state();
    let mut state = FontState { fonts, loaded };
    let first = get_system_fonts(&mut state, None);
    let second = get_system_fonts(&mut state, None);
    assert_eq!(first, second);
    assert_eq!(
        first,
        names(&[
            "Arial",
            "Courier New",
            "Georgia",
            "Helvetica",
            "Inter",
            "Times New Roman",
            "Verdana",
        ])
    );
}

#[test]
fn empty_cached_catalog_heals_by_reloading() {
    // A filled cache that somehow holds no names must reload once instead of
    // handing the empty catalog out forever.
    let mut state = FontState { fonts: Vec::new(), loaded: true };
    assert!(!fonts_loaded(&state));
    let out = get_system_fonts(&mut state, Some(names(&["Zapfino"])));
    assert!(out.contains(&"Zapfino".to_string()));
    assert!(fonts_loaded(&state));
}
