//! Level shift, clamping and image geometry.

use rust_j2k::codestream::markers::{
    Cod, Progression, Qcd, QuantStyle, Rect, Siz, SizComponent, Transform,
};
use rust_j2k::codestream::MainHeader;
use rust_j2k::image::{assemble, Canvas};
use rust_j2k::{Component, Error, Image, Result};

fn header(x_size: u32, y_size: u32, bit_depth: u8, signed: bool) -> MainHeader {
    MainHeader::new(
        Siz {
            x_size,
            y_size,
            x_offset: 0,
            y_offset: 0,
            tile_width: x_size,
            tile_height: y_size,
            tile_x_offset: 0,
            tile_y_offset: 0,
            components: vec![SizComponent {
                bit_depth,
                signed,
                x_sampling: 1,
                y_sampling: 1,
            }],
        },
        Cod {
            progression: Progression::Lrcp,
            layers: 1,
            decomposition_levels: 0,
            code_block_width: 4,
            code_block_height: 4,
            code_block_style: 0,
            use_sop: false,
            use_eph: false,
            multiple_component_transform: false,
            transform: Transform::Reversible53,
            precinct_sizes: vec![],
        },
        Qcd {
            style: QuantStyle::Unquantized,
            guard_bits: 1,
            steps: vec![],
        },
    )
}

fn assemble1(header: &MainHeader, samples: Vec<i32>) -> Result<Image> {
    assemble(header, vec![samples], 0)
}

fn only(img: &Image) -> &Component {
    assert_eq!(img.components.len(), 1, "assemble emits one component");
    img.component(0).unwrap()
}

#[test]
fn unsigned_adds_level_shift_and_clamps() {
    let h = header(2, 2, 8, false);
    let img = assemble1(&h, vec![0, -128, 127, 200]).unwrap();
    assert_eq!(only(&img).samples, vec![128, 0, 255, 255]);
    let img = assemble1(&header(1, 1, 8, false), vec![-200]).unwrap();
    assert_eq!(only(&img).samples, vec![0]);
}

#[test]
fn signed_is_unshifted_and_clamps() {
    let h = header(2, 2, 8, true);
    let img = assemble1(&h, vec![0, 50, 200, -200]).unwrap();
    assert_eq!(only(&img).samples, vec![0, 50, 127, -128]);
}

#[test]
fn wider_depths_round_trip_edges() {
    let img = assemble1(&header(1, 4, 12, false), vec![-2048, 0, 2047, 9999]).unwrap();
    assert_eq!(only(&img).samples, vec![0, 2048, 4095, 4095]);
    let img = assemble1(&header(1, 3, 16, true), vec![-40000, 12345, 40000]).unwrap();
    assert_eq!(only(&img).samples, vec![-32768, 12345, 32767]);
}

#[test]
fn geometry_uses_siz_image_area() {
    let mut h = header(6, 5, 8, false);
    h.siz.x_offset = 2;
    h.siz.y_offset = 1;
    let img = assemble1(&h, vec![0; 16]).unwrap();
    assert_eq!((img.width, img.height), (4, 4));
    let c = only(&img);
    assert_eq!((c.width, c.height), (4, 4));
    assert_eq!(c.bit_depth, 8);
    assert!(!c.signed);
    assert_eq!(c.sample(3, 3), Some(128));
    assert_eq!(c.sample(4, 0), None);
}

#[test]
fn geometry_honours_sub_sampling() {
    let mut h = header(8, 8, 8, false);
    h.siz.components[0].x_sampling = 2;
    h.siz.components[0].y_sampling = 2;
    let img = assemble1(&h, vec![0; 16]).unwrap();
    assert_eq!((img.width, img.height), (8, 8));
    let c = only(&img);
    assert_eq!((c.width, c.height), (4, 4));
    assert_eq!((c.x_sampling, c.y_sampling), (2, 2));
}

#[test]
fn sample_count_mismatch_is_inconsistent() {
    let h = header(4, 4, 8, false);
    let err = assemble1(&h, vec![0; 15]).unwrap_err();
    assert!(matches!(err, Error::Inconsistent(_)), "got {err:?}");
}

#[test]
fn depth_beyond_i32_container_is_unsupported() {
    for (depth, signed) in [(32, false), (33, false), (33, true), (38, true)] {
        let h = header(1, 1, depth, signed);
        let err = assemble1(&h, vec![0]).unwrap_err();
        assert!(matches!(err, Error::Unsupported(_)), "{depth} got {err:?}");
    }
    let img = assemble1(&header(1, 1, 32, true), vec![i32::MIN]).unwrap();
    assert_eq!(only(&img).samples, vec![i32::MIN]);
}

#[test]
fn bad_depth_is_rejected() {
    for depth in [0, 39] {
        let h = header(1, 1, depth, false);
        assert!(matches!(assemble1(&h, vec![0]), Err(Error::Marker(_))));
    }
}

#[test]
fn a_canvas_takes_each_tile_in_its_place() {
    let h = header(4, 2, 8, true);
    let mut canvas = Canvas::new(&h, 0).unwrap();
    let left = Rect { x0: 0, y0: 0, x1: 3, y1: 2 };
    let right = Rect { x0: 3, y0: 0, x1: 4, y1: 2 };
    canvas.place(0, right, vec![7, 8]).unwrap();
    canvas.place(0, left, vec![1, 2, 3, 4, 5, 6]).unwrap();
    assert_eq!(canvas.into_planes(), vec![vec![1, 2, 3, 7, 4, 5, 6, 8]]);
}

#[test]
fn a_canvas_rejects_what_does_not_fit() {
    let h = header(4, 2, 8, true);
    let mut canvas = Canvas::new(&h, 0).unwrap();
    let inside = Rect { x0: 1, y0: 0, x1: 3, y1: 1 };
    let outside = Rect { x0: 3, y0: 0, x1: 5, y1: 1 };
    assert!(matches!(canvas.place(0, inside, vec![1]), Err(Error::Inconsistent(_))));
    assert!(matches!(canvas.place(0, outside, vec![1, 2]), Err(Error::Inconsistent(_))));
    assert!(matches!(canvas.place(1, inside, vec![1, 2]), Err(Error::Inconsistent(_))));
    assert_eq!(canvas.into_planes(), vec![vec![0; 8]]);
}

#[test]
fn a_reduction_halves_the_canvas_rounding_up() {
    let h = header(5, 3, 8, true);
    let canvas = Canvas::new(&h, 1).unwrap();
    assert_eq!(canvas.into_planes(), vec![vec![0; 6]]);
    let img = assemble(&h, vec![vec![0; 6]], 1).unwrap();
    assert_eq!((img.width, img.height), (3, 2));
}

#[test]
fn a_component_count_mismatch_is_inconsistent() {
    let h = header(1, 1, 8, false);
    assert!(matches!(assemble(&h, vec![vec![0], vec![0]], 0), Err(Error::Inconsistent(_))));
    assert!(matches!(assemble(&h, vec![], 0), Err(Error::Inconsistent(_))));
}

#[test]
fn faults_name_the_component_and_its_numbers() {
    let said = |r: Result<Image>| r.unwrap_err();
    assert_eq!(
        said(assemble1(&header(4, 4, 8, false), vec![0; 15])),
        Error::Inconsistent(
            "component 0 decoded 15 samples but its geometry is 4x4 = 16".into()
        )
    );
    assert_eq!(
        said(assemble1(&header(1, 1, 39, false), vec![0])),
        Error::Marker("component 0 bit depth 39 outside the standard's range 1..=38".into())
    );
    assert_eq!(
        said(assemble1(&header(1, 1, 32, false), vec![0])),
        Error::Unsupported(
            "component 0 depth 32 (unsigned) exceeds the i32 sample container".into()
        )
    );
    assert_eq!(
        said(assemble(&header(1, 1, 8, false), vec![vec![0], vec![0]], 0)),
        Error::Inconsistent("decoded 2 components but SIZ declares 1".into())
    );
}

#[test]
fn a_misplaced_tile_component_is_described() {
    let mut canvas = Canvas::new(&header(4, 2, 8, true), 0).unwrap();
    let inside = Rect { x0: 1, y0: 0, x1: 3, y1: 1 };
    let outside = Rect { x0: 3, y0: 0, x1: 5, y1: 1 };
    assert_eq!(
        canvas.place(0, inside, vec![1]),
        Err(Error::Inconsistent(
            "component 0 of a tile reconstructed 1 samples but its 2x1 rectangle holds 2".into()
        ))
    );
    assert_eq!(
        canvas.place(0, outside, vec![1, 2]),
        Err(Error::Inconsistent(format!(
            "a tile's component 0 rectangle {outside:?} falls outside the canvas {:?}",
            Rect { x0: 0, y0: 0, x1: 4, y1: 2 }
        )))
    );
    assert_eq!(
        canvas.place(1, inside, vec![1, 2]),
        Err(Error::Inconsistent("no canvas plane for component 1".into()))
    );
}
