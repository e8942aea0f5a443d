//! The reversible colour transform and its geometry check.

use rust_j2k::codestream::markers::SizComponent;
use rust_j2k::mct::{check_geometry, inverse_rct, saturate};
use rust_j2k::pipeline::Samples;
use rust_j2k::Error;

fn forward_rct(r: i32, g: i32, b: i32) -> (i32, i32, i32) {
    let (r, g, b) = (i64::from(r), i64::from(g), i64::from(b));
    (
        ((r + 2 * g + b) >> 2) as i32,
        (b - g) as i32,
        (r - g) as i32,
    )
}

fn reversible(values: &[&[i32]]) -> Vec<Samples> {
    values
        .iter()
        .map(|v| Samples::Reversible(v.to_vec()))
        .collect()
}

fn plain(components: &[Samples]) -> Vec<Vec<i32>> {
    components
        .iter()
        .map(|c| match c {
            Samples::Reversible(v) => v.clone(),
            Samples::Irreversible(_, _) => panic!("RCT never sees the 9/7 arm"),
        })
        .collect()
}

fn invert(y0: i32, y1: i32, y2: i32) -> (i32, i32, i32) {
    let mut components = reversible(&[&[y0], &[y1], &[y2]]);
    inverse_rct(&mut components).expect("three equal components");
    let out = plain(&components);
    (out[0][0], out[1][0], out[2][0])
}

#[test]
fn inverse_undoes_the_forward_transform_exactly() {
    for r in [0, 1, 17, 128, 255] {
        for g in [0, 3, 64, 200, 255] {
            for b in [0, 7, 99, 254, 255] {
                let (y0, y1, y2) = forward_rct(r, g, b);
                assert_eq!(invert(y0, y1, y2), (r, g, b), "RGB ({r}, {g}, {b})");
            }
        }
    }
}

#[test]
fn inverse_round_trips_negative_samples() {
    for r in [-128, -1, 0, 127] {
        for g in [-128, -5, 0, 127] {
            for b in [-128, 0, 3, 127] {
                let (y0, y1, y2) = forward_rct(r, g, b);
                assert_eq!(invert(y0, y1, y2), (r, g, b), "RGB ({r}, {g}, {b})");
            }
        }
    }
}

#[test]
fn the_divide_by_four_floors_rather_than_truncates() {
    assert_eq!(invert(0, -1, 0), (1, 1, 0));
    assert_eq!(invert(0, -3, -2), (0, 2, -1));
    assert_eq!(invert(0, 3, 2), (1, -1, 2));
}

#[test]
fn transform_applies_only_to_the_first_three_components() {
    let mut components = reversible(&[&[0], &[0], &[0], &[42], &[-7]]);
    inverse_rct(&mut components).unwrap();
    let out = plain(&components);
    assert_eq!(out[3], vec![42]);
    assert_eq!(out[4], vec![-7]);
}

#[test]
fn extreme_samples_saturate_rather_than_overflow() {
    let mut components = reversible(&[&[i32::MAX], &[i32::MAX], &[i32::MAX]]);
    inverse_rct(&mut components).expect("saturates");
    let mut components = reversible(&[&[i32::MIN], &[i32::MIN], &[i32::MIN]]);
    inverse_rct(&mut components).expect("saturates");
}

#[test]
fn fewer_than_three_components_is_inconsistent() {
    let mut components = reversible(&[&[1], &[2]]);
    assert!(matches!(
        inverse_rct(&mut components),
        Err(Error::Inconsistent(_))
    ));
}

#[test]
fn unequal_component_sizes_are_inconsistent() {
    let mut components = reversible(&[&[1, 2], &[3], &[4, 5]]);
    assert!(matches!(
        inverse_rct(&mut components),
        Err(Error::Inconsistent(_))
    ));
}

fn component(bit_depth: u8, signed: bool, x_sampling: u8, y_sampling: u8) -> SizComponent {
    SizComponent {
        bit_depth,
        signed,
        x_sampling,
        y_sampling,
    }
}

#[test]
fn three_matching_components_pass() {
    let comps = vec![component(8, false, 1, 1); 3];
    assert!(check_geometry(&comps).is_ok());
    let mut more = comps.clone();
    more.push(component(12, true, 2, 2));
    assert!(check_geometry(&more).is_ok());
}

#[test]
fn fewer_than_three_components_is_a_marker_error() {
    for count in 0..3 {
        let comps = vec![component(8, false, 1, 1); count];
        assert!(
            matches!(check_geometry(&comps), Err(Error::Marker(_))),
            "{count} component(s) should reject"
        );
    }
}

#[test]
fn mismatched_depth_sign_or_sub_sampling_is_a_marker_error() {
    for odd in [
        component(12, false, 1, 1),
        component(8, true, 1, 1),
        component(8, false, 2, 1),
    ] {
        let comps = vec![component(8, false, 1, 1), odd, component(8, false, 1, 1)];
        assert!(
            matches!(check_geometry(&comps), Err(Error::Marker(_))),
            "{odd:?} should reject"
        );
    }
}

#[test]
fn saturate_holds_to_i32() {
    assert_eq!(saturate(i64::from(i32::MAX) + 1), i32::MAX);
    assert_eq!(saturate(i64::from(i32::MIN) - 1), i32::MIN);
    assert_eq!(saturate(-5), -5);
}

#[test]
fn extreme_samples_saturate_to_the_nearest_bound() {
    assert_eq!(invert(i32::MAX, i32::MAX, i32::MAX), (i32::MAX, 1_073_741_824, i32::MAX));
    assert_eq!(invert(i32::MIN, i32::MIN, i32::MIN), (i32::MIN, -1_073_741_824, i32::MIN));
}

#[test]
fn the_colour_transform_says_what_it_needs() {
    assert_eq!(
        inverse_rct(&mut reversible(&[&[1], &[2]])),
        Err(Error::Inconsistent("the colour transform needs three components, found 2".into()))
    );
    assert_eq!(
        inverse_rct(&mut reversible(&[&[1, 2], &[3], &[4, 5]])),
        Err(Error::Inconsistent(
            "the colour transform needs three components of equal size".into()
        ))
    );
}
