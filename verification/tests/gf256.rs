//! Arithmetic in the field of 256 elements.

use craftec::rlnc::gf256::build_exp_table;
use craftec::rlnc::gf256::build_log_table;
use craftec::rlnc::gf256::gf_add;
use craftec::rlnc::gf256::gf_div;
use craftec::rlnc::gf256::gf_inv;
use craftec::rlnc::gf256::gf_mul;
use craftec::rlnc::gf256::gf_mul_slow;
use craftec::rlnc::gf256::gf_vec_mul_add;
use craftec::rlnc::gf256::EXP_TABLE;
use craftec::rlnc::gf256::LOG_TABLE;

// Tables

#[test]
fn exp_log_are_inverses() {
    // For every non-zero element a: EXP_TABLE[LOG_TABLE[a]] == a
    for a in 1u8..=255 {
        let log_a = LOG_TABLE[a as usize] as usize;
        assert_eq!(EXP_TABLE[log_a], a, "EXP/LOG mismatch for a = {a}");
    }
}

#[test]
fn exp_table_is_cyclic() {
    // g^255 == g^0 == 1 (the group has order 255)
    assert_eq!(EXP_TABLE[0], 1);
    assert_eq!(EXP_TABLE[255], 1);
}

#[test]
fn log_table_duplicate_half_matches() {
    // EXP_TABLE[i] == EXP_TABLE[i + 255] for i in 0..255
    for i in 0..255usize {
        assert_eq!(
            EXP_TABLE[i],
            EXP_TABLE[i + 255],
            "EXP_TABLE duplication failed at i = {i}"
        );
    }
}

// Addition properties

#[test]
fn add_commutativity() {
    for a in 0u8..=255 {
        for b in [0u8, 1, 7, 127, 200, 255] {
            assert_eq!(gf_add(a, b), gf_add(b, a));
        }
    }
}

#[test]
fn add_associativity() {
    let (a, b, c) = (53u8, 97u8, 213u8);
    assert_eq!(gf_add(gf_add(a, b), c), gf_add(a, gf_add(b, c)));
}

#[test]
fn add_identity_is_zero() {
    for a in 0u8..=255 {
        assert_eq!(gf_add(a, 0), a);
        assert_eq!(gf_add(0, a), a);
    }
}

#[test]
fn add_self_is_zero() {
    for a in 0u8..=255 {
        assert_eq!(gf_add(a, a), 0);
    }
}

// Multiplication properties

#[test]
fn mul_commutativity() {
    for a in 0u8..=255 {
        for b in [0u8, 1, 3, 7, 127, 255] {
            assert_eq!(gf_mul(a, b), gf_mul(b, a));
        }
    }
}

#[test]
fn mul_associativity() {
    let (a, b, c) = (53u8, 97u8, 213u8);
    assert_eq!(gf_mul(gf_mul(a, b), c), gf_mul(a, gf_mul(b, c)));
}

#[test]
fn mul_identity_is_one() {
    for a in 0u8..=255 {
        assert_eq!(gf_mul(a, 1), a);
        assert_eq!(gf_mul(1, a), a);
    }
}

#[test]
fn mul_by_zero_is_zero() {
    for a in 0u8..=255 {
        assert_eq!(gf_mul(a, 0), 0);
        assert_eq!(gf_mul(0, a), 0);
    }
}

#[test]
fn mul_distributivity_over_add() {
    // a * (b + c) == a*b + a*c
    let (a, b, c) = (123u8, 45u8, 67u8);
    let lhs = gf_mul(a, gf_add(b, c));
    let rhs = gf_add(gf_mul(a, b), gf_mul(a, c));
    assert_eq!(lhs, rhs);
}

#[test]
fn mul_full_correctness_spot_check() {
    // Known GF(2^8) products (AES field, generator 0x03):
    // 0x53 * 0xCA = 0x01  (inverse pair)
    assert_eq!(gf_mul(0x53, 0xCA), 1);
    // 0x02 * 0x80 = 0x1B  (xtime of 0x80 with AES poly)
    assert_eq!(gf_mul(0x02, 0x80), 0x1B);
}

// Division / inverse properties

#[test]
fn div_is_mul_by_inverse() {
    for a in 0u8..=255 {
        for b in 1u8..=255 {
            assert_eq!(gf_div(a, b), gf_mul(a, gf_inv(b)));
        }
    }
}

#[test]
fn inverse_identity() {
    // a * inv(a) == 1 for all a != 0
    for a in 1u8..=255 {
        assert_eq!(gf_mul(a, gf_inv(a)), 1, "a * inv(a) != 1 for a = {a}");
    }
}

#[test]
fn inv_of_one_is_one() {
    assert_eq!(gf_inv(1), 1);
}

// gf_vec_mul_add

#[test]
fn vec_mul_add_zero_coeff_noop() {
    let src = vec![0xABu8; 32];
    let mut dst = vec![0x00u8; 32];
    gf_vec_mul_add(&mut dst, &src, 0);
    assert!(dst.iter().all(|&b| b == 0));
}

#[test]
fn vec_mul_add_one_coeff_is_xor() {
    let src = vec![0xFFu8; 16];
    let mut dst = vec![0xFFu8; 16];
    gf_vec_mul_add(&mut dst, &src, 1);
    // dst XOR src with src == dst  →  all zeros
    assert!(dst.iter().all(|&b| b == 0));
}

#[test]
fn vec_mul_add_correctness() {
    // dst[i] += coeff * src[i] should match element-wise gf_mul+gf_add.
    let src: Vec<u8> = (0..16).map(|i| (i * 17 + 3) as u8).collect();
    let original_dst: Vec<u8> = (0..16).map(|i| (i * 31 + 7) as u8).collect();
    let coeff = 0x5A_u8;

    let mut dst = original_dst.clone();
    gf_vec_mul_add(&mut dst, &src, coeff);

    for i in 0..16 {
        let expected = gf_add(original_dst[i], gf_mul(coeff, src[i]));
        assert_eq!(dst[i], expected, "mismatch at index {i}");
    }
}

#[test]
fn vec_mul_add_large_buffer() {
    let n = 256 * 1024; // 256 KiB — typical piece size
    let src: Vec<u8> = (0..n).map(|i| (i % 251) as u8).collect();
    let mut dst = vec![0u8; n];
    gf_vec_mul_add(&mut dst, &src, 0x03);
    // Spot-check a few elements.
    for i in [0, 1, 127, 1000, n - 1] {
        let expected = gf_mul(0x03, src[i]);
        assert_eq!(dst[i], expected, "large buffer mismatch at index {i}");
    }
}

// Tables and products by other means

#[test]
fn tables_are_the_built_ones() {
    let exp = build_exp_table();
    assert_eq!(exp, EXP_TABLE);
    assert_eq!(build_log_table(&exp), LOG_TABLE);
}

#[test]
fn built_tables_undo_each_other() {
    let exp = build_exp_table();
    let log = build_log_table(&exp);
    for a in 1..=255u8 {
        assert!(log[a as usize] <= 254);
        assert_eq!(exp[log[a as usize] as usize], a);
    }
    for i in 0..255usize {
        assert_ne!(exp[i], 0);
        assert_eq!(log[exp[i] as usize] as usize, i);
    }
}

#[test]
fn the_last_place_counts() {
    let mut table = [7u8; 512];
    table[0] = 9;
    let log = build_log_table(&table);
    assert_eq!(log[7], 254);
    assert_eq!(log[9], 0);
    assert_eq!(log[8], 0);
}

#[test]
fn exp_table_starts_with_powers_of_three() {
    assert_eq!(EXP_TABLE[..9], [1, 3, 5, 15, 17, 51, 85, 255, 26]);
    assert_eq!(EXP_TABLE[510], 1);
    assert_eq!(EXP_TABLE[511], 3);
}

#[test]
fn table_products_are_the_slow_ones() {
    for a in 0u8..=255 {
        for b in 0u8..=255 {
            assert_eq!(gf_mul(a, b), gf_mul_slow(a, b));
        }
    }
}
