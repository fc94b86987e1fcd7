use fractals::{
    render_frame_part, ConfigError, FramePartConfig, GrayscaleColorTransformation,
    HsvBasedColorTransformation, RenderError, Resolution,
};

fn config(width: usize, height: usize, scaling: usize, part_num: usize, part_count: usize) -> FramePartConfig {
    FramePartConfig {
        res: Resolution::new(width, height),
        scaling,
        part_num,
        part_count,
        max_iters: 10,
    }
}

#[test]
fn resolution_new_keeps_fields() {
    let r = Resolution::new(640, 480);
    assert_eq!(r.width, 640);
    assert_eq!(r.height, 480);
}

#[test]
fn descaled_dimensions() {
    let c = config(8, 10, 2, 0, 2);
    assert_eq!(c.check(), Ok(()));
    assert_eq!(c.descaled_width(), 4);
    assert_eq!(c.descaled_height(), 5);
    assert_eq!(c.height_split(), 2);
    assert_eq!(c.height_leftover(), 1);
}

#[test]
fn even_bands_and_remainder() {
    let heights: Vec<usize> = (0..3).map(|p| config(8, 10, 2, p, 2).frame_height()).collect();
    let starts: Vec<usize> = (0..3).map(|p| config(8, 10, 2, p, 2).frame_start_row()).collect();
    assert_eq!(heights, vec![2, 2, 1]);
    assert_eq!(starts, vec![0, 2, 4]);
    assert!(config(8, 10, 2, 2, 2).is_last_leftover());
    assert!(!config(8, 10, 2, 1, 2).is_last_leftover());
}

#[test]
fn exact_split_has_no_remainder_band() {
    let c = config(8, 10, 2, 5, 5);
    assert!(!c.is_last_leftover());
    assert_eq!(c.frame_height(), 1);
    assert_eq!(c.height_leftover(), 0);
}

#[test]
fn remainder_follows_descaled_height() {
    let c = config(20, 20, 5, 5, 5);
    assert_eq!(c.descaled_height(), 4);
    assert_eq!(c.height_split(), 0);
    assert!(c.is_last_leftover());
    assert_eq!(c.frame_height(), 4);
    assert_eq!(c.frame_start_row(), 0);
}

#[test]
fn invalid_scaling_is_reported() {
    assert_eq!(config(5, 4, 2, 0, 1).check(), Err(ConfigError::InvalidScaling));
    assert_eq!(config(4, 5, 2, 0, 1).check(), Err(ConfigError::InvalidScaling));
    assert_eq!(config(4, 4, 0, 0, 1).check(), Err(ConfigError::InvalidScaling));
}

#[test]
fn invalid_partition_is_reported() {
    assert_eq!(config(4, 4, 2, 0, 0).check(), Err(ConfigError::InvalidPartition));
    assert_eq!(config(4, 4, 2, 3, 2).check(), Err(ConfigError::InvalidPartition));
}

#[test]
fn render_reports_each_error() {
    let gray = GrayscaleColorTransformation;
    assert_eq!(
        render_frame_part(&config(5, 4, 2, 0, 1), &gray, &vec![]),
        Err(RenderError::Config(ConfigError::InvalidScaling))
    );
    assert_eq!(
        render_frame_part(&config(4, 4, 1, 2, 1), &gray, &vec![]),
        Err(RenderError::Config(ConfigError::InvalidPartition))
    );
    assert_eq!(
        render_frame_part(&config(2, 2, 1, 0, 1), &gray, &vec![1, 2, 3]),
        Err(RenderError::PointsOutOfBounds)
    );
    assert_eq!(
        render_frame_part(&config(2, 2, 1, 0, 1), &gray, &vec![1, 2, 3, 11]),
        Err(RenderError::IterationsOutOfRange)
    );
}

#[test]
fn render_length_matches_resolution() {
    let gray = GrayscaleColorTransformation;
    let iterations = vec![5; 12];
    let out = render_frame_part(&config(6, 4, 2, 0, 1), &gray, &iterations).unwrap();
    assert_eq!(out.len(), 4 * 6 * 4);
}

#[test]
fn render_is_deterministic() {
    let gray = GrayscaleColorTransformation;
    let iterations: Vec<usize> = (0..10).collect();
    let a = render_frame_part(&config(4, 10, 2, 1, 2), &gray, &iterations[2..6].to_vec());
    let b = render_frame_part(&config(4, 10, 2, 1, 2), &gray, &iterations[2..6].to_vec());
    assert_eq!(a, b);
}

#[test]
fn stacked_bands_rebuild_the_frame() {
    let gray = GrayscaleColorTransformation;
    let width = 4usize;
    let (res_w, res_h, scaling) = (8usize, 10usize, 2usize);
    let whole: Vec<usize> = (0..20).map(|i| i % 11).collect();
    let full = render_frame_part(&config(res_w, res_h, scaling, 0, 1), &gray, &whole).unwrap();
    let mut stacked = Vec::new();
    for p in 0..3 {
        let c = config(res_w, res_h, scaling, p, 2);
        let start = c.frame_start_row();
        let rows = c.frame_height();
        let band = whole[width * start..width * (start + rows)].to_vec();
        stacked.extend(render_frame_part(&c, &gray, &band).unwrap());
    }
    assert_eq!(stacked, full);
}

#[test]
fn stacked_exact_bands_rebuild_the_frame() {
    let gray = GrayscaleColorTransformation;
    let whole: Vec<usize> = (0..12).map(|i| (i * 7) % 11).collect();
    let full = render_frame_part(&config(3, 4, 1, 0, 1), &gray, &whole).unwrap();
    let mut stacked = Vec::new();
    for p in 0..2 {
        let c = config(3, 4, 1, p, 2);
        let start = c.frame_start_row();
        let band = whole[3 * start..3 * (start + c.frame_height())].to_vec();
        stacked.extend(render_frame_part(&c, &gray, &band).unwrap());
    }
    assert_eq!(stacked, full);
}

#[test]
fn centre_of_small_frame_is_black() {
    // A 4 by 4 grid over [-1, 1] x [-1, 1] samples the origin at column 2, row 2;
    // the origin never escapes, so its count is the bound.
    let mut iterations = vec![1usize; 16];
    iterations[4 * 2 + 2] = 10;
    let hues = HsvBasedColorTransformation::new(vec![(9, 9, 9); 10]);
    let out = render_frame_part(&config(4, 4, 1, 0, 1), &hues, &iterations).unwrap();
    let at = 4 * (2 * 4 + 2);
    assert_eq!(&out[at..at + 4], &[0, 0, 0, 255]);
    assert_eq!(&out[0..4], &[9, 9, 9, 255]);
    assert_eq!(out.len(), 64);
}
