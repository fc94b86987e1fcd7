use fractals::{ColorTransformation, GrayscaleColorTransformation, HsvBasedColorTransformation};

fn hue_palette() -> HsvBasedColorTransformation {
    HsvBasedColorTransformation::new(vec![(1, 2, 3), (4, 5, 6), (7, 8, 9)])
}

#[test]
fn grayscale_levels() {
    let gray = GrayscaleColorTransformation;
    assert_eq!(gray.determine_color(0, 10), (0, 0, 0));
    assert_eq!(gray.determine_color(5, 10), (127, 127, 127));
    assert_eq!(gray.determine_color(1, 3), (85, 85, 85));
    assert_eq!(gray.determine_color(usize::MAX - 1, usize::MAX), (254, 254, 254));
}

#[test]
fn grayscale_bound_is_white() {
    let gray = GrayscaleColorTransformation;
    assert_eq!(gray.determine_color(10, 10), (255, 255, 255));
    assert_eq!(gray.determine_color(1, 1), (255, 255, 255));
    assert_eq!(gray.determine_color(usize::MAX, usize::MAX), (255, 255, 255));
}

#[test]
fn hue_bound_is_black() {
    let hue = hue_palette();
    assert_eq!(hue.determine_color(3, 3), (0, 0, 0));
    assert_eq!(hue.determine_color(0, 0), (0, 0, 0));
}

#[test]
fn hue_reads_table_below_bound() {
    let hue = hue_palette();
    assert_eq!(hue.determine_color(0, 3), (1, 2, 3));
    assert_eq!(hue.determine_color(2, 3), (7, 8, 9));
    assert!(hue.accepts_iterations(2, 3));
    assert!(hue.accepts_iterations(50, 50));
    assert!(!hue.accepts_iterations(3, 50));
}

#[test]
fn grayscale_accepts_only_within_bound() {
    let gray = GrayscaleColorTransformation;
    assert!(gray.accepts_iterations(0, 1));
    assert!(gray.accepts_iterations(1, 1));
    assert!(!gray.accepts_iterations(2, 1));
    assert!(!gray.accepts_iterations(0, 0));
}

#[test]
fn transform_without_scaling() {
    let hue = hue_palette();
    let out = hue.transform(&vec![0, 3, 1, 0], 3, 2, 2, 1);
    assert_eq!(
        out,
        vec![1, 2, 3, 255, 0, 0, 0, 255, 4, 5, 6, 255, 1, 2, 3, 255]
    );
}

#[test]
fn transform_upscales_blocks() {
    let hue = hue_palette();
    let out = hue.transform(&vec![0, 3], 3, 2, 1, 2);
    let row = vec![1, 2, 3, 255, 1, 2, 3, 255, 0, 0, 0, 255, 0, 0, 0, 255];
    let mut expected = row.clone();
    expected.extend(row);
    assert_eq!(out, expected);
}

#[test]
fn transform_reads_only_the_grid() {
    let gray = GrayscaleColorTransformation;
    let out = gray.transform(&vec![2, 4, 0], 4, 1, 2, 1);
    assert_eq!(out, vec![127, 127, 127, 255, 255, 255, 255, 255]);
}

#[test]
fn transform_empty_grid() {
    let gray = GrayscaleColorTransformation;
    assert!(gray.transform(&vec![], 4, 0, 3, 2).is_empty());
    assert!(gray.transform(&vec![], 4, 3, 0, 2).is_empty());
    assert!(gray.transform(&vec![1, 2], 4, 2, 1, 0).is_empty());
}

#[test]
fn upscaled_blocks_are_uniform() {
    let gray = GrayscaleColorTransformation;
    let iterations = vec![0, 1, 2, 3];
    let (width, height, scaling) = (2usize, 2usize, 3usize);
    let out = gray.transform(&iterations, 3, width, height, scaling);
    assert_eq!(out.len(), 4 * (width * scaling) * (height * scaling));
    for row in 0..height * scaling {
        for col in 0..width * scaling {
            let at = 4 * (row * width * scaling + col);
            let (r, g, b) = gray.determine_color(iterations[width * (row / scaling) + col / scaling], 3);
            assert_eq!(&out[at..at + 4], &[r, g, b, 255]);
        }
    }
}
