use wotw_logic_map::headers::{Annotation, Annotations};

#[test]
fn default_annotations_show_the_header() {
    let annotations = Annotations::default();
    assert!(!annotations.hide);
    assert_eq!(annotations.category, None);
}

#[test]
fn no_annotations_give_the_default() {
    let annotations = Annotations::from(Vec::new());
    assert!(!annotations.hide);
    assert_eq!(annotations.category, None);
}

#[test]
fn hide_is_kept_wherever_it_stands() {
    let annotations = Annotations::from(vec![
        Annotation::Hide,
        Annotation::Category("Goals".to_string()),
    ]);
    assert!(annotations.hide);
    assert_eq!(annotations.category, Some("Goals".to_string()));
}

#[test]
fn last_category_wins() {
    let annotations = Annotations::from(vec![
        Annotation::Category("Goals".to_string()),
        Annotation::Category("Quality of Life".to_string()),
    ]);
    assert!(!annotations.hide);
    assert_eq!(annotations.category, Some("Quality of Life".to_string()));
}

#[test]
fn category_before_hide_is_kept() {
    let annotations = Annotations::from(vec![
        Annotation::Category("Goals".to_string()),
        Annotation::Hide,
        Annotation::Hide,
    ]);
    assert!(annotations.hide);
    assert_eq!(annotations.category, Some("Goals".to_string()));
}
