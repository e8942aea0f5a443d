//! The wavelets: one-dimensional lifting, the two-dimensional pyramid and its
//! interleave parity.

use rust_j2k::codestream::markers::{
    Cod, Progression, Qcd, QuantStyle, Siz, SizComponent, Transform,
};
use rust_j2k::codestream::MainHeader;
use rust_j2k::dwt::{interleave, inverse, inverse_5_3, reflect};
use rust_j2k::pipeline::{Band, Bands, DetailBands, Samples, SubbandCoeffs};

const ALPHA: f32 = -1.586_134_3;
const BETA: f32 = -0.052_980_12;
const GAMMA: f32 = 0.882_911_1;
const DELTA: f32 = 0.443_506_85;
const K: f32 = 1.230_174_1;

fn lift_step(signal: &mut [f32], n: usize, start: usize, coeff: f32) {
    for i in (start..n).step_by(2) {
        let left = signal[reflect(i as isize - 1, n)];
        let right = signal[reflect(i as isize + 1, n)];
        signal[i] += coeff * (left + right);
    }
}

fn inverse_9_7(signal: &mut [f32], cas: usize) {
    let n = signal.len();
    if n <= 1 {
        return;
    }
    let (low, high) = (cas, 1 - cas);
    for i in (low..n).step_by(2) {
        signal[i] *= K;
    }
    for i in (high..n).step_by(2) {
        signal[i] *= 2.0 * (1.0 / K);
    }
    lift_step(signal, n, low, -DELTA);
    lift_step(signal, n, high, -GAMMA);
    lift_step(signal, n, low, -BETA);
    lift_step(signal, n, high, -ALPHA);
}

fn reconstruct_9_7(bands: Bands<f32>) -> Band<f32> {
    let mut ll = bands.ll;
    for level in &bands.levels {
        let mut grid = interleave(&ll, level);
        let (w, h) = (grid.width, grid.height);
        let (cas_x, cas_y) = ((grid.origin.0 & 1) as usize, (grid.origin.1 & 1) as usize);
        for y in 0..h {
            inverse_9_7(&mut grid.data[y * w..(y + 1) * w], cas_x);
        }
        for x in 0..w {
            let mut col: Vec<f32> = (0..h).map(|y| grid.data[y * w + x]).collect();
            inverse_9_7(&mut col, cas_y);
            for (y, v) in col.into_iter().enumerate() {
                grid.data[y * w + x] = v;
            }
        }
        ll = grid;
    }
    ll
}

fn forward_5_3(signal: &mut [i32], cas: usize) {
    let n = signal.len();
    if n <= 1 {
        if n == 1 && cas == 1 {
            signal[0] *= 2;
        }
        return;
    }
    for i in (1 - cas..n).step_by(2) {
        let left = signal[reflect(i as isize - 1, n)];
        let right = signal[reflect(i as isize + 1, n)];
        signal[i] -= (left + right) >> 1;
    }
    for i in (cas..n).step_by(2) {
        let left = signal[reflect(i as isize - 1, n)];
        let right = signal[reflect(i as isize + 1, n)];
        signal[i] += (left + right + 2) >> 2;
    }
}

fn forward_9_7(signal: &mut [f32], cas: usize) {
    let n = signal.len();
    if n <= 1 {
        return;
    }
    let (low, high) = (cas, 1 - cas);
    lift_step(signal, n, high, ALPHA);
    lift_step(signal, n, low, BETA);
    lift_step(signal, n, high, GAMMA);
    lift_step(signal, n, low, DELTA);
    for i in (low..n).step_by(2) {
        signal[i] *= 1.0 / K;
    }
    for i in (high..n).step_by(2) {
        signal[i] *= K / 2.0;
    }
}

#[test]
fn reflect_mirrors_about_edges() {
    assert_eq!(reflect(-1, 4), 1);
    assert_eq!(reflect(-2, 4), 2);
    assert_eq!(reflect(4, 4), 2);
    assert_eq!(reflect(5, 4), 1);
    assert_eq!(reflect(6, 4), 0);
    for i in 0..4 {
        assert_eq!(reflect(i as isize, 4), i);
    }
    for i in -3..3 {
        assert_eq!(reflect(i, 1), 0);
    }
}

fn fb(ox: u32, oy: u32, w: usize, h: usize, data: &[f32]) -> Band<f32> {
    Band {
        origin: (ox, oy),
        width: w,
        height: h,
        data: data.to_vec(),
    }
}

#[test]
fn empty_coarse_resolution_carries_the_subband_gain_per_filter() {
    let bands = Bands {
        ll: fb(1, 0, 0, 1, &[]),
        levels: vec![
            DetailBands {
                hl: fb(0, 0, 0, 1, &[]),
                lh: fb(1, 0, 0, 0, &[]),
                hh: fb(0, 0, 0, 0, &[]),
            },
            DetailBands {
                hl: fb(0, 0, 1, 1, &[4.910_476]),
                lh: fb(1, 0, 0, 0, &[]),
                hh: fb(0, 0, 1, 0, &[]),
            },
            DetailBands {
                hl: fb(1, 0, 0, 1, &[]),
                lh: fb(1, 0, 1, 1, &[0.0]),
                hh: fb(1, 0, 0, 1, &[]),
            },
            DetailBands {
                hl: fb(
                    1,
                    0,
                    2,
                    2,
                    &[-21.382_141, 2.101_135, -21.382_141, 2.101_135],
                ),
                lh: fb(2, 0, 1, 1, &[0.0]),
                hh: fb(1, 0, 2, 1, &[0.0, 0.0]),
            },
        ],
    };
    let out = reconstruct_9_7(bands);
    assert_eq!((out.width, out.height), (3, 3));
    let expected = [-23.819, 14.551, 14.359];
    for (i, v) in out.data.iter().enumerate() {
        let want = expected[i % 3];
        assert!(
            (v - want).abs() < 0.02,
            "sample {i}: got {v}, want ~{want} (gain must be per-filter, not 2^gain)"
        );
    }
}

#[test]
fn inverse_5_3_known_vector() {
    let mut a = vec![10, 0, 33, 10];
    inverse_5_3(&mut a, 0);
    assert_eq!(a, [10, 20, 30, 40]);
}

#[test]
fn inverse_5_3_round_trips_bit_exact() {
    let signals: &[&[i32]] = &[
        &[],
        &[42],
        &[7, -7],
        &[1, 2, 3],
        &[10, 20, 30, 40],
        &[5, -3, 0, 9, -100, 64, 7],
        &[0, 0, 0, 0, 0, 0, 0, 0],
        &[-5, -10, -15, -20, -25, -30],
        &[1000, -1000, 500, -500, 250, -250, 125, -125, 1],
    ];
    for &s in signals {
        for cas in [0, 1] {
            let mut a = s.to_vec();
            forward_5_3(&mut a, cas);
            inverse_5_3(&mut a, cas);
            assert_eq!(
                a,
                s,
                "5/3 round-trip mismatch for len {} cas {cas}",
                s.len()
            );
        }
    }
}

#[test]
fn inverse_5_3_saturates_on_extreme_coefficients() {
    for cas in [0, 1] {
        let mut a = vec![i32::MAX / 2, i32::MIN / 2, i32::MAX / 2, i32::MIN / 2];
        inverse_5_3(&mut a, cas);
        let mut b = vec![i32::MAX, i32::MIN, i32::MAX, i32::MIN, i32::MAX];
        inverse_5_3(&mut b, cas);
    }
}

#[test]
fn degenerate_lengths_are_identity() {
    for cas in [0, 1] {
        let mut empty_i: Vec<i32> = Vec::new();
        inverse_5_3(&mut empty_i, cas);
        assert!(empty_i.is_empty());
    }
    let mut one_low = vec![42];
    inverse_5_3(&mut one_low, 0);
    assert_eq!(one_low, [42]);
    let mut one_high = vec![42];
    inverse_5_3(&mut one_high, 1);
    assert_eq!(one_high, [21]);
    let mut one_high_negative = vec![-43];
    inverse_5_3(&mut one_high_negative, 1);
    assert_eq!(one_high_negative, [-21], "truncating division, not a floor");
}


fn header(transform: Transform, levels: u8, w: u32, h: u32) -> MainHeader {
    MainHeader::new(
        Siz {
            x_size: w,
            y_size: h,
            x_offset: 0,
            y_offset: 0,
            tile_width: w,
            tile_height: h,
            tile_x_offset: 0,
            tile_y_offset: 0,
            components: vec![SizComponent {
                bit_depth: 16,
                signed: false,
                x_sampling: 1,
                y_sampling: 1,
            }],
        },
        Cod {
            progression: Progression::Lrcp,
            layers: 1,
            decomposition_levels: levels,
            code_block_width: 4,
            code_block_height: 4,
            code_block_style: 0,
            use_sop: false,
            use_eph: false,
            multiple_component_transform: false,
            transform,
            precinct_sizes: Vec::new(),
        },
        Qcd {
            style: QuantStyle::Unquantized,
            guard_bits: 2,
            steps: Vec::new(),
        },
    )
}

fn forward_2d<T: Copy + Default, F: Fn(&mut [T], usize)>(
    grid: &mut [T],
    w: usize,
    h: usize,
    cas_x: usize,
    cas_y: usize,
    fwd: &F,
) {
    let mut col = vec![T::default(); h];
    for x in 0..w {
        for (y, slot) in col.iter_mut().enumerate() {
            *slot = grid[y * w + x];
        }
        fwd(&mut col, cas_y);
        for (y, &v) in col.iter().enumerate() {
            grid[y * w + x] = v;
        }
    }
    if w > 0 {
        for row in grid.chunks_exact_mut(w) {
            fwd(row, cas_x);
        }
    }
}

fn gather<T: Copy + Default>(
    grid: &[T],
    w: usize,
    h: usize,
    col_off: usize,
    row_off: usize,
    origin: (u32, u32),
) -> Band<T> {
    let bw = (w - col_off.min(w)).div_ceil(2);
    let bh = (h - row_off.min(h)).div_ceil(2);
    let mut data = vec![T::default(); bw * bh];
    for by in 0..bh {
        for bx in 0..bw {
            data[by * bw + bx] = grid[(2 * by + row_off) * w + (2 * bx + col_off)];
        }
    }
    Band {
        origin,
        width: bw,
        height: bh,
        data,
    }
}

fn forward_bands_at<T: Copy + Default, F: Fn(&mut [T], usize)>(
    image: &[T],
    w: usize,
    h: usize,
    levels: usize,
    fwd: &F,
    u0: u32,
    v0: u32,
) -> Bands<T> {
    let mut data = image.to_vec();
    let (mut cw, mut ch) = (w, h);
    let (mut u, mut v) = (u0, v0);
    let mut details = Vec::new();
    for _ in 0..levels {
        let (cas_x, cas_y) = ((u & 1) as usize, (v & 1) as usize);
        forward_2d(&mut data, cw, ch, cas_x, cas_y, fwd);
        let (lo_x, hi_x) = (u.div_ceil(2), u / 2);
        let (lo_y, hi_y) = (v.div_ceil(2), v / 2);
        let ll = gather(&data, cw, ch, cas_x, cas_y, (lo_x, lo_y));
        let hl = gather(&data, cw, ch, 1 - cas_x, cas_y, (hi_x, lo_y));
        let lh = gather(&data, cw, ch, cas_x, 1 - cas_y, (lo_x, hi_y));
        let hh = gather(&data, cw, ch, 1 - cas_x, 1 - cas_y, (hi_x, hi_y));
        details.push(DetailBands { hl, lh, hh });
        cw = ll.width;
        ch = ll.height;
        (u, v) = (lo_x, lo_y);
        data = ll.data;
    }
    details.reverse();
    Bands {
        ll: Band {
            origin: (u, v),
            width: cw,
            height: ch,
            data,
        },
        levels: details,
    }
}

fn forward_bands<T: Copy + Default, F: Fn(&mut [T], usize)>(
    image: &[T],
    w: usize,
    h: usize,
    levels: usize,
    fwd: &F,
) -> Bands<T> {
    forward_bands_at(image, w, h, levels, fwd, 0, 0)
}

fn ramp(w: usize, h: usize) -> Vec<i32> {
    (0..w * h).map(|i| (i as i32 * 7 % 23) - 11).collect()
}

const CASES: [(usize, usize, usize); 10] = [
    (1, 1, 0),
    (6, 4, 0),
    (4, 4, 1),
    (5, 3, 1),
    (9, 1, 1),
    (4, 4, 2),
    (7, 5, 2),
    (3, 9, 2),
    (8, 8, 3),
    (1, 8, 3),
];

#[test]
fn reconstruct_5_3_bit_exact() {
    for (w, h, levels) in CASES {
        let image = ramp(w, h);
        let bands = forward_bands(&image, w, h, levels, &forward_5_3);
        let hdr = header(Transform::Reversible53, levels as u8, w as u32, h as u32);
        let out = inverse(&hdr, 0, SubbandCoeffs::Reversible(bands)).unwrap();
        assert_eq!(
            out,
            Samples::Reversible(image),
            "5/3 mismatch for {w}x{h}, {levels} levels"
        );
    }
}

#[test]
fn reconstruct_5_3_bit_exact_at_odd_origins() {
    for (w, h, levels) in CASES {
        for (u0, v0) in ODD_ORIGINS {
            let image = ramp(w, h);
            let bands = forward_bands_at(&image, w, h, levels, &forward_5_3, u0, v0);
            let hdr = header(Transform::Reversible53, levels as u8, w as u32, h as u32);
            let out = inverse(&hdr, 0, SubbandCoeffs::Reversible(bands)).unwrap();
            assert_eq!(
                out,
                Samples::Reversible(image),
                "5/3 mismatch for {w}x{h}, {levels} levels at origin ({u0}, {v0})"
            );
        }
    }
}

#[test]
fn reconstruct_9_7_within_tolerance_at_odd_origins() {
    for (w, h, levels) in CASES {
        for (u0, v0) in ODD_ORIGINS {
            let image = ramp(w, h);
            let as_f32: Vec<f32> = image.iter().map(|&v| v as f32).collect();
            let bands = forward_bands_at(&as_f32, w, h, levels, &forward_9_7, u0, v0);
            let values = reconstruct_9_7(bands).data;
            let rounded: Vec<i32> = values.iter().map(|v| v.round_ties_even() as i32).collect();
            assert_eq!(
                rounded, image,
                "9/7 mismatch for {w}x{h}, {levels} levels at origin ({u0}, {v0})"
            );
        }
    }
}

const ODD_ORIGINS: [(u32, u32); 6] = [(1, 0), (0, 1), (1, 1), (3, 2), (2, 6), (5, 7)];

#[test]
fn band_origins_sum_back_to_the_resolution_origin() {
    for (u0, v0) in [(0u32, 0u32), (1, 1), (2, 3), (7, 6), (255, 256)] {
        let image = ramp(8, 8);
        let bands = forward_bands_at(&image, 8, 8, 1, &forward_5_3, u0, v0);
        let level = &bands.levels[0];
        assert_eq!(bands.ll.origin.0 + level.hl.origin.0, u0);
        assert_eq!(bands.ll.origin.1 + level.lh.origin.1, v0);
    }
}

#[test]
fn reconstruct_9_7_within_tolerance() {
    for (w, h, levels) in CASES {
        let image = ramp(w, h);
        let as_f32: Vec<f32> = image.iter().map(|&v| v as f32).collect();
        let bands = forward_bands(&as_f32, w, h, levels, &forward_9_7);
        let values = reconstruct_9_7(bands).data;
        let rounded: Vec<i32> = values.iter().map(|v| v.round_ties_even() as i32).collect();
        assert_eq!(rounded, image, "9/7 mismatch for {w}x{h}, {levels} levels");
    }
}

