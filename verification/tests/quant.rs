//! Quantization steps.

use rust_j2k::codestream::markers::{
    Cod, Progression, Qcd, QuantStyle, Siz, SizComponent, Transform,
};
use rust_j2k::codestream::MainHeader;
use rust_j2k::dwt::inverse;
use rust_j2k::pipeline::{Band, Bands, DetailBands, Samples, Step, SubbandCoeffs};
use rust_j2k::quant::{nominal_gain, subband_steps};
use rust_j2k::Error;

fn header(prec: u8, levels: u8, qcd: Qcd) -> MainHeader {
    MainHeader::new(
        Siz {
            x_size: 4,
            y_size: 4,
            x_offset: 0,
            y_offset: 0,
            tile_width: 4,
            tile_height: 4,
            tile_x_offset: 0,
            tile_y_offset: 0,
            components: vec![SizComponent {
                bit_depth: prec,
                signed: false,
                x_sampling: 1,
                y_sampling: 1,
            }],
        },
        Cod {
            progression: Progression::Lrcp,
            layers: 1,
            decomposition_levels: levels,
            code_block_width: 4,
            code_block_height: 4,
            code_block_style: 0,
            use_sop: false,
            use_eph: false,
            multiple_component_transform: false,
            transform: Transform::Irreversible97,
            precinct_sizes: vec![],
        },
        qcd,
    )
}

fn band(value: i32) -> Band<i32> {
    Band {
        origin: (0, 0),
        width: 1,
        height: 1,
        data: vec![value],
    }
}

fn step(prec: i32, gain: i32, exp: i32, mant: i32) -> f32 {
    (1.0 + mant as f32 / 2048.0) * 2f32.powi(prec + gain - exp)
}

fn recon(q: f32, step: f32) -> f32 {
    q * (0.5f32 * step)
}

fn scaled(q: f32, s: Step) -> f32 {
    recon(q, (1.0 + f32::from(s.mantissa) / 2048.0) * 2f32.powi(s.exponent))
}

fn assert_close(got: f32, want: f32) {
    assert!(
        (got - want).abs() <= 1e-3 * want.abs().max(1.0),
        "got {got}, want {want}"
    );
}

#[test]
fn reversible_is_identity() {
    let qcd = Qcd {
        style: QuantStyle::Unquantized,
        guard_bits: 2,
        steps: vec![(8, 0)],
    };
    let bands = Bands {
        ll: Band {
            origin: (0, 0),
            width: 2,
            height: 1,
            data: vec![3, -7],
        },
        levels: vec![],
    };
    let out = inverse(&header(8, 0, qcd), 0, SubbandCoeffs::Reversible(bands)).unwrap();
    assert_eq!(out, Samples::Reversible(vec![3, -7]));
}

#[test]
fn expounded_matches_hand_computed() {
    let qcd = Qcd {
        style: QuantStyle::ScalarExpounded,
        guard_bits: 2,
        steps: vec![(8, 0), (7, 512), (7, 512), (6, 1024)],
    };
    let steps = subband_steps(&header(8, 1, qcd), 0, 1).unwrap();

    assert_eq!(steps.len(), 4);
    assert_close(scaled(5.0, steps[0]), recon(5.0, step(8, 0, 8, 0)));
    assert_close(scaled(-3.0, steps[1]), recon(-3.0, step(8, 1, 7, 512)));
    assert_eq!(scaled(0.0, steps[2]), 0.0);
    assert_close(scaled(2.0, steps[3]), recon(2.0, step(8, 2, 6, 1024)));
}

#[test]
fn derived_drops_exponent_one_per_level() {
    let qcd = Qcd {
        style: QuantStyle::ScalarDerived,
        guard_bits: 1,
        steps: vec![(10, 100)],
    };
    let steps = subband_steps(&header(8, 2, qcd), 0, 2).unwrap();

    assert_close(scaled(1.0, steps[0]), recon(1.0, step(8, 0, 10, 100)));
    assert_close(scaled(1.0, steps[1]), recon(1.0, step(8, 1, 10, 100)));
    assert_close(scaled(1.0, steps[4]), recon(1.0, step(8, 1, 9, 100)));
}

#[test]
fn derived_exponent_saturates_at_zero() {
    let qcd = Qcd {
        style: QuantStyle::ScalarDerived,
        guard_bits: 1,
        steps: vec![(1, 0)],
    };
    let steps = subband_steps(&header(8, 3, qcd), 0, 3).unwrap();
    assert_close(scaled(1.0, steps[7]), recon(1.0, step(8, 1, 0, 0)));
}

#[test]
fn expounded_with_too_few_steps_is_inconsistent() {
    let qcd = Qcd {
        style: QuantStyle::ScalarExpounded,
        guard_bits: 2,
        steps: vec![(8, 0)],
    };
    let err = subband_steps(&header(8, 1, qcd), 0, 1).unwrap_err();
    assert!(matches!(err, Error::Inconsistent(_)));
}

#[test]
fn expounded_with_too_many_steps_is_inconsistent() {
    let qcd = Qcd {
        style: QuantStyle::ScalarExpounded,
        guard_bits: 2,
        steps: vec![(8, 0); 7],
    };
    let err = subband_steps(&header(8, 1, qcd), 0, 1).unwrap_err();
    assert!(matches!(err, Error::Inconsistent(_)));
}

#[test]
fn expounded_walks_two_levels_in_order() {
    let qcd = Qcd {
        style: QuantStyle::ScalarExpounded,
        guard_bits: 2,
        steps: vec![
            (9, 0),
            (8, 16),
            (8, 32),
            (7, 64),
            (6, 128),
            (6, 256),
            (5, 512),
        ],
    };
    let steps = subband_steps(&header(8, 2, qcd), 0, 2).unwrap();

    assert_close(scaled(2.0, steps[0]), recon(2.0, step(8, 0, 9, 0)));
    assert_close(scaled(2.0, steps[2]), recon(2.0, step(8, 1, 8, 32)));
    assert_close(scaled(2.0, steps[3]), recon(2.0, step(8, 2, 7, 64)));
    assert_close(scaled(2.0, steps[4]), recon(2.0, step(8, 1, 6, 128)));
    assert_close(scaled(2.0, steps[6]), recon(2.0, step(8, 2, 5, 512)));
}

#[test]
fn opposite_signs_reconstruct_to_negatives() {
    let qcd = Qcd {
        style: QuantStyle::ScalarExpounded,
        guard_bits: 2,
        steps: vec![(7, 300), (7, 300), (7, 300), (7, 300)],
    };
    let steps = subband_steps(&header(10, 1, qcd), 0, 1).unwrap();
    let pos = scaled(6.0, steps[0]);
    let neg = scaled(-6.0, steps[0]);
    assert_eq!(pos, -neg);
    assert!(pos > 0.0);
}

#[test]
fn irreversible_without_scalar_quant_is_inconsistent() {
    let qcd = Qcd {
        style: QuantStyle::Unquantized,
        guard_bits: 2,
        steps: vec![(8, 0)],
    };
    let err = subband_steps(&header(8, 1, qcd), 0, 1).unwrap_err();
    assert!(matches!(err, Error::Inconsistent(_)));
}

#[test]
fn steps_are_exact_exponents_and_mantissas() {
    let qcd = Qcd {
        style: QuantStyle::ScalarExpounded,
        guard_bits: 2,
        steps: vec![(8, 0), (7, 512), (7, 513), (6, 1024)],
    };
    let steps = subband_steps(&header(12, 1, qcd), 0, 1).unwrap();
    let pairs: Vec<(i32, u16)> = steps.iter().map(|s| (s.exponent, s.mantissa)).collect();
    assert_eq!(pairs, vec![(4, 0), (6, 512), (6, 513), (8, 1024)]);
}

#[test]
fn the_nominal_gain_counts_the_high_pass_axes() {
    let gains: Vec<i32> = (0..7).map(nominal_gain).collect();
    assert_eq!(gains, vec![0, 1, 1, 2, 1, 1, 2]);
}

#[test]
fn an_unknown_component_or_an_empty_table_is_inconsistent() {
    let qcd = Qcd {
        style: QuantStyle::ScalarDerived,
        guard_bits: 2,
        steps: vec![],
    };
    let h = header(8, 1, qcd);
    assert!(matches!(subband_steps(&h, 0, 1), Err(Error::Inconsistent(_))));
    assert!(matches!(subband_steps(&h, 1, 1), Err(Error::Inconsistent(_))));
}

#[test]
fn the_irreversible_path_keeps_its_indices_and_gains_its_steps() {
    let qcd = Qcd {
        style: QuantStyle::ScalarDerived,
        guard_bits: 2,
        steps: vec![(9, 7)],
    };
    let bands = Bands {
        ll: band(5),
        levels: vec![DetailBands {
            hl: band(-3),
            lh: band(0),
            hh: band(2),
        }],
    };
    match inverse(&header(8, 1, qcd), 0, SubbandCoeffs::Irreversible(bands)).unwrap() {
        Samples::Irreversible(b, steps) => {
            assert_eq!(b.ll.data, vec![5]);
            assert_eq!(b.levels[0].hl.data, vec![-3]);
            assert_eq!(steps.len(), 4);
            assert_eq!(steps[0], Step { exponent: -1, mantissa: 7 });
        }
        Samples::Reversible(_) => panic!("expected irreversible samples"),
    }
}

#[test]
fn an_unusable_step_table_is_described() {
    let said = |style: QuantStyle, steps: usize, comp: usize| {
        let qcd = Qcd { style, guard_bits: 2, steps: vec![(8, 0); steps] };
        subband_steps(&header(8, 1, qcd), comp, 1).unwrap_err()
    };
    assert_eq!(
        said(QuantStyle::ScalarExpounded, 7, 0),
        Error::Inconsistent("expounded QCD carries 7 step sizes, expected 4 for 1 levels".into())
    );
    assert_eq!(
        said(QuantStyle::ScalarDerived, 0, 0),
        Error::Inconsistent("QCD carries 0 step sizes but subband 0 needs one".into())
    );
    assert_eq!(
        said(QuantStyle::Unquantized, 1, 0),
        Error::Inconsistent(
            "irreversible transform needs scalar quantization, found QuantStyle::None".into()
        )
    );
    assert_eq!(
        said(QuantStyle::ScalarDerived, 1, 3),
        Error::Inconsistent("SIZ declares no component 3".into())
    );
}
