//! The arithmetic decoder and its probability table.

use rust_j2k::tier1::mq::{qe_table, Context, MqDecoder, QeEntry, QE_STATES};

const H2_CODED: [u8; 30] = [
    0x84, 0xC7, 0x3B, 0xFC, 0xE1, 0xA1, 0x43, 0x04,
    0x02, 0x20, 0x00, 0x00, 0x41, 0x0D, 0xBB, 0x86,
    0xF4, 0x31, 0x7F, 0xFF, 0x88, 0xFF, 0x37, 0x47,
    0x1A, 0xDB, 0x6A, 0xDF, 0xFF, 0xAC,
];

const H2_DECODED: [u8; 32] = [
    0x00, 0x02, 0x00, 0x51, 0x00, 0x00, 0x00, 0xC0,
    0x03, 0x52, 0x87, 0x2A, 0xAA, 0xAA, 0xAA, 0xAA,
    0x82, 0xC0, 0x20, 0x00, 0xFC, 0xD7, 0x9E, 0xF6,
    0xBF, 0x7F, 0xED, 0x90, 0x4F, 0x46, 0xA3, 0xBF,
];

#[test]
fn h2_test_sequence_decodes_exactly() {
    let mut mq = MqDecoder::new(&H2_CODED);
    let mut cx = Context::default();
    for (i, &expected) in H2_DECODED.iter().enumerate() {
        let mut actual = 0u8;
        for _ in 0..8 {
            actual = (actual << 1) | mq.decode(&mut cx);
        }
        assert_eq!(actual, expected, "decoded byte {i}");
    }
}

#[test]
fn decode_past_end_is_bounded() {
    let mut mq = MqDecoder::new(&H2_CODED);
    let mut cx = Context::default();
    for _ in 0..(H2_DECODED.len() * 8 * 4) {
        let _ = mq.decode(&mut cx);
    }
}

#[test]
fn tiny_and_empty_segments_do_not_panic() {
    for data in [[].as_slice(), [0xFF].as_slice(), [0x00].as_slice()] {
        let mut mq = MqDecoder::new(data);
        let mut cx = Context::default();
        for _ in 0..64 {
            let _ = mq.decode(&mut cx);
        }
    }
}

const ISO_TABLE_C2: [(u16, u8, u8, bool); 47] = [
    (0x5601,  1,  1, true),  (0x3401,  2,  6, false), (0x1801,  3,  9, false),
    (0x0ac1,  4, 12, false), (0x0521,  5, 29, false), (0x0221, 38, 33, false),
    (0x5601,  7,  6, true),  (0x5401,  8, 14, false), (0x4801,  9, 14, false),
    (0x3801, 10, 14, false), (0x3001, 11, 17, false), (0x2401, 12, 18, false),
    (0x1c01, 13, 20, false), (0x1601, 29, 21, false), (0x5601, 15, 14, true),
    (0x5401, 16, 14, false), (0x5101, 17, 15, false), (0x4801, 18, 16, false),
    (0x3801, 19, 17, false), (0x3401, 20, 18, false), (0x3001, 21, 19, false),
    (0x2801, 22, 19, false), (0x2401, 23, 20, false), (0x2201, 24, 21, false),
    (0x1c01, 25, 22, false), (0x1801, 26, 23, false), (0x1601, 27, 24, false),
    (0x1401, 28, 25, false), (0x1201, 29, 26, false), (0x1101, 30, 27, false),
    (0x0ac1, 31, 28, false), (0x09c1, 32, 29, false), (0x08a1, 33, 30, false),
    (0x0521, 34, 31, false), (0x0441, 35, 32, false), (0x02a1, 36, 33, false),
    (0x0221, 37, 34, false), (0x0141, 38, 35, false), (0x0111, 39, 36, false),
    (0x0085, 40, 37, false), (0x0049, 41, 38, false), (0x0025, 42, 39, false),
    (0x0015, 43, 40, false), (0x0009, 44, 41, false), (0x0005, 45, 42, false),
    (0x0001, 45, 43, false), (0x5601, 46, 46, false),
];

#[test]
fn table_has_47_states() {
    assert_eq!(QE_STATES, 47);
}

#[test]
fn anchor_state_zero() {
    let e = qe_table(0);
    assert_eq!(e.qe, 0x5601);
    assert_eq!(e.next_mps, 1);
    assert_eq!(e.next_lps, 1);
    assert!(e.switch);
}

#[test]
fn table_matches_iso() {
    for (i, &(qe, next_mps, next_lps, switch)) in ISO_TABLE_C2.iter().enumerate() {
        let QeEntry {
            qe: gqe,
            next_mps: gmps,
            next_lps: glps,
            switch: gsw,
        } = qe_table(i as u8);
        assert_eq!(
            (gqe, gmps, glps, gsw),
            (qe, next_mps, next_lps, switch),
            "row {i}"
        );
    }
}

#[test]
fn transitions_stay_in_bounds() {
    let n = QE_STATES;
    for i in 0..n {
        let e = qe_table(i as u8);
        assert!(
            usize::from(e.next_mps) < n,
            "row {i}: next_mps {} out of range",
            e.next_mps
        );
        assert!(
            usize::from(e.next_lps) < n,
            "row {i}: next_lps {} out of range",
            e.next_lps
        );
    }
}

#[test]
fn known_structural_invariants() {
    let switches: Vec<usize> = (0..QE_STATES)
        .filter(|&i| qe_table(i as u8).switch)
        .collect();
    assert_eq!(switches, vec![0, 6, 14]);
    assert!(switches.iter().all(|&i| qe_table(i as u8).qe == 0x5601));

    let last = qe_table(46);
    assert_eq!(last.next_mps, 46);
    assert_eq!(last.next_lps, 46);
}
