use raytracer::info::{get_text, is_ci, AUTHOR};
use raytracer::utils::random_i32_range;

#[test]
fn text_without_commit_is_the_author() {
    assert_eq!(get_text(None), "Yuanxin Cao");
    assert_eq!(AUTHOR, "Yuanxin Cao");
}

#[test]
fn text_with_commit_adds_its_first_six_bytes() {
    assert_eq!(get_text(Some("0123456789abcdef")), "Yuanxin Cao@012345");
    assert_eq!(get_text(Some("abcdef")), "Yuanxin Cao@abcdef");
}

#[test]
fn ci_only_when_exactly_true() {
    assert!(is_ci(Some("true")));
    assert!(!is_ci(Some("True")));
    assert!(!is_ci(Some("true ")));
    assert!(!is_ci(Some("")));
    assert!(!is_ci(None));
}

#[test]
fn random_range_stays_inside_and_reaches_every_value() {
    let mut seen = [false; 3];
    for _ in 0..300 {
        let r = random_i32_range(0, 2);
        assert!((0..=2).contains(&r));
        seen[r as usize] = true;
    }
    assert!(seen.iter().all(|&s| s));
    assert_eq!(random_i32_range(-7, -7), -7);
}
