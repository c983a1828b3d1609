use winehouse::camera::halton_digits;
use winehouse::mesh::{cube_indices, flat_normal_sources, resolve_indices};
use winehouse::viewport::{
    accepts_resize, bloom_target_side, bloom_texel_side, preferred_surface_format, render_extent,
};

#[test]
fn cube_indices_are_two_triangles_per_face() {
    let idx = cube_indices();
    assert_eq!(
        idx,
        vec![
            0, 1, 2, 0, 2, 3, 4, 5, 6, 4, 6, 7, 8, 9, 10, 8, 10, 11, 12, 13, 14, 12, 14, 15, 16,
            17, 18, 16, 18, 19, 20, 21, 22, 20, 22, 23,
        ]
    );
    assert!(idx.iter().all(|&i| i < 24));
}

#[test]
fn indices_from_the_file_are_kept() {
    assert_eq!(resolve_indices(Some(vec![2, 1, 0]), 3), vec![2, 1, 0]);
}

#[test]
fn missing_indices_become_one_per_vertex() {
    assert_eq!(resolve_indices(None, 4), vec![0, 1, 2, 3]);
    assert_eq!(resolve_indices(None, 0), Vec::<u32>::new());
}

#[test]
fn each_vertex_takes_the_normal_of_the_last_triangle_using_it() {
    // Triangles (0,1,2) and (2,3,0); a trailing pair (4, 4) is ignored.
    let src = flat_normal_sources(6, &[0, 1, 2, 2, 3, 0, 4, 4]);
    assert_eq!(src, vec![Some(1), Some(0), Some(1), Some(1), None, None]);
}

#[test]
fn vertices_without_triangles_have_no_normal_source() {
    assert_eq!(flat_normal_sources(3, &[]), vec![None, None, None]);
    assert_eq!(flat_normal_sources(2, &[0, 1]), vec![None, None]);
}

#[test]
fn halton_digits_are_least_significant_first() {
    assert_eq!(halton_digits(0, 2), Vec::<u32>::new());
    assert_eq!(halton_digits(6, 2), vec![0, 1, 1]);
    assert_eq!(halton_digits(7, 3), vec![1, 2]);
    assert_eq!(halton_digits(u32::MAX, 16), vec![15; 8]);
}

#[test]
fn halton_values_from_digits() {
    let value = |index: u32, base: u32| -> f32 {
        let mut f = 1.0_f32;
        let mut r = 0.0_f32;
        for d in halton_digits(index, base) {
            f /= base as f32;
            r += f * d as f32;
        }
        r
    };
    assert_eq!(value(1, 2), 0.5);
    assert_eq!(value(2, 2), 0.25);
    assert_eq!(value(3, 2), 0.75);
    assert!((value(1, 3) - 1.0 / 3.0).abs() < 1e-6);
    assert!((value(5, 3) - 7.0 / 9.0).abs() < 1e-6);
}

#[test]
fn zero_sized_resizes_are_ignored() {
    assert!(accepts_resize(800, 600));
    assert!(!accepts_resize(0, 600));
    assert!(!accepts_resize(800, 0));
}

#[test]
fn render_extent_is_at_least_one_pixel() {
    assert_eq!(render_extent(0, 0), (1, 1));
    assert_eq!(render_extent(1280, 720), (1280, 720));
}

#[test]
fn bloom_sides_agree() {
    for side in [0u32, 1, 2, 3, 4, 5, 1279, 1280, u32::MAX] {
        assert_eq!(bloom_texel_side(side), bloom_target_side(side));
    }
    assert_eq!(bloom_target_side(0), 1);
    assert_eq!(bloom_target_side(1281), 640);
}

#[test]
fn surface_format_prefers_the_first_non_srgb() {
    assert_eq!(preferred_surface_format(&[true, false, false]), 1);
    assert_eq!(preferred_surface_format(&[false, true]), 0);
    assert_eq!(preferred_surface_format(&[true, true]), 0);
}
