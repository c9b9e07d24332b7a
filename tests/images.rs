use neighbors::images::{image_translations, Image};

fn img(a: i64, b: i64, c: i64) -> Image {
    Image { a, b, c }
}

#[test]
fn zero_extents_give_the_origin_cell() {
    assert_eq!(image_translations(0, 0, 0), vec![img(0, 0, 0)]);
}

#[test]
fn one_shell_gives_27_translations() {
    let ts = image_translations(1, 1, 1);
    assert_eq!(ts.len(), 27);
    assert_eq!(ts[0], img(-1, -1, -1));
    assert_eq!(ts[1], img(-1, -1, 0));
    assert_eq!(ts[3], img(-1, 0, -1));
    assert_eq!(ts[13], img(0, 0, 0));
    assert_eq!(ts[26], img(1, 1, 1));
}

#[test]
fn translations_are_lexicographic_and_distinct() {
    let ts = image_translations(2, 0, 1);
    assert_eq!(ts.len(), 5 * 1 * 3);
    for w in ts.windows(2) {
        assert!((w[0].a, w[0].b, w[0].c) < (w[1].a, w[1].b, w[1].c));
    }
    for t in &ts {
        assert!(t.a.abs() <= 2 && t.b == 0 && t.c.abs() <= 1);
    }
}

#[test]
fn larger_extents_cover_smaller() {
    let small = image_translations(1, 0, 2);
    let large = image_translations(2, 1, 2);
    assert_eq!(large.len(), 5 * 3 * 5);
    for t in &small {
        assert!(large.contains(t));
    }
}

#[test]
fn opposite_negates_each_component() {
    assert_eq!(img(1, -2, 0).opposite(), img(-1, 2, 0));
    assert_eq!(img(0, 0, 0).opposite(), img(0, 0, 0));
}
