use emakiwm::opacity::{left_dimmed, opaque_style, DimSet, DimStep};

#[test]
fn windows_are_dimmed_once() {
    let mut set = DimSet::new();
    assert_eq!(set.dim(7, 200, 0x100), DimStep::StyleAndAlpha(0x8_0100));
    assert_eq!(set.dim(7, 200, 0x8_0100), DimStep::Nothing);
    assert_eq!(set.dim(7, 150, 0x8_0100), DimStep::Alpha);
    assert!(set.undim(7));
    assert!(!set.undim(7));
}

#[test]
fn windows_with_the_style_are_left_alone() {
    let mut set = DimSet::new();
    assert_eq!(set.dim(7, 200, 0x8_0000), DimStep::Nothing);
    assert!(!set.undim(7));
}

#[test]
fn all_windows_are_made_opaque() {
    let mut set = DimSet::new();
    for h in [1u64, 2, 3] {
        set.dim(h, 100, 0);
    }
    assert!(set.undim(1));
    let mut left = set.drain();
    left.sort();
    assert_eq!(left, vec![2, 3]);
    assert_eq!(set.drain(), Vec::<u64>::new());
}

#[test]
fn styles_and_leftovers() {
    assert_eq!(opaque_style(0x8_0100), 0x100);
    assert_eq!(opaque_style(0x100), 0x100);
    assert!(left_dimmed(true, 2, 254));
    assert!(left_dimmed(true, 3, 0));
    assert!(!left_dimmed(true, 2, 255));
    assert!(!left_dimmed(true, 1, 100));
    assert!(!left_dimmed(false, 2, 100));
}
