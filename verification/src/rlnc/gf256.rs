//! Arithmetic in GF(2⁸) through logarithm tables.
//!
//! For elements other than zero, `a · b = g^(log a + log b)` with the generator `g = 3`.
//! [`EXP_TABLE`] holds two full cycles of powers of `g`, so the sum of two logarithms is
//! an index without reduction modulo 255.

use crate::rlnc::field;
use vstd::prelude::*;

verus! {

/// `EXP_TABLE[i]` is `g^i`, for every index.
pub const EXP_TABLE: [u8; 512] = [
    0x01, 0x03, 0x05, 0x0f, 0x11, 0x33, 0x55, 0xff, 0x1a, 0x2e, 0x72, 0x96, 0xa1, 0xf8, 0x13, 0x35,
    0x5f, 0xe1, 0x38, 0x48, 0xd8, 0x73, 0x95, 0xa4, 0xf7, 0x02, 0x06, 0x0a, 0x1e, 0x22, 0x66, 0xaa,
    0xe5, 0x34, 0x5c, 0xe4, 0x37, 0x59, 0xeb, 0x26, 0x6a, 0xbe, 0xd9, 0x70, 0x90, 0xab, 0xe6, 0x31,
    0x53, 0xf5, 0x04, 0x0c, 0x14, 0x3c, 0x44, 0xcc, 0x4f, 0xd1, 0x68, 0xb8, 0xd3, 0x6e, 0xb2, 0xcd,
    0x4c, 0xd4, 0x67, 0xa9, 0xe0, 0x3b, 0x4d, 0xd7, 0x62, 0xa6, 0xf1, 0x08, 0x18, 0x28, 0x78, 0x88,
    0x83, 0x9e, 0xb9, 0xd0, 0x6b, 0xbd, 0xdc, 0x7f, 0x81, 0x98, 0xb3, 0xce, 0x49, 0xdb, 0x76, 0x9a,
    0xb5, 0xc4, 0x57, 0xf9, 0x10, 0x30, 0x50, 0xf0, 0x0b, 0x1d, 0x27, 0x69, 0xbb, 0xd6, 0x61, 0xa3,
    0xfe, 0x19, 0x2b, 0x7d, 0x87, 0x92, 0xad, 0xec, 0x2f, 0x71, 0x93, 0xae, 0xe9, 0x20, 0x60, 0xa0,
    0xfb, 0x16, 0x3a, 0x4e, 0xd2, 0x6d, 0xb7, 0xc2, 0x5d, 0xe7, 0x32, 0x56, 0xfa, 0x15, 0x3f, 0x41,
    0xc3, 0x5e, 0xe2, 0x3d, 0x47, 0xc9, 0x40, 0xc0, 0x5b, 0xed, 0x2c, 0x74, 0x9c, 0xbf, 0xda, 0x75,
    0x9f, 0xba, 0xd5, 0x64, 0xac, 0xef, 0x2a, 0x7e, 0x82, 0x9d, 0xbc, 0xdf, 0x7a, 0x8e, 0x89, 0x80,
    0x9b, 0xb6, 0xc1, 0x58, 0xe8, 0x23, 0x65, 0xaf, 0xea, 0x25, 0x6f, 0xb1, 0xc8, 0x43, 0xc5, 0x54,
    0xfc, 0x1f, 0x21, 0x63, 0xa5, 0xf4, 0x07, 0x09, 0x1b, 0x2d, 0x77, 0x99, 0xb0, 0xcb, 0x46, 0xca,
    0x45, 0xcf, 0x4a, 0xde, 0x79, 0x8b, 0x86, 0x91, 0xa8, 0xe3, 0x3e, 0x42, 0xc6, 0x51, 0xf3, 0x0e,
    0x12, 0x36, 0x5a, 0xee, 0x29, 0x7b, 0x8d, 0x8c, 0x8f, 0x8a, 0x85, 0x94, 0xa7, 0xf2, 0x0d, 0x17,
    0x39, 0x4b, 0xdd, 0x7c, 0x84, 0x97, 0xa2, 0xfd, 0x1c, 0x24, 0x6c, 0xb4, 0xc7, 0x52, 0xf6, 0x01,
    0x03, 0x05, 0x0f, 0x11, 0x33, 0x55, 0xff, 0x1a, 0x2e, 0x72, 0x96, 0xa1, 0xf8, 0x13, 0x35, 0x5f,
    0xe1, 0x38, 0x48, 0xd8, 0x73, 0x95, 0xa4, 0xf7, 0x02, 0x06, 0x0a, 0x1e, 0x22, 0x66, 0xaa, 0xe5,
    0x34, 0x5c, 0xe4, 0x37, 0x59, 0xeb, 0x26, 0x6a, 0xbe, 0xd9, 0x70, 0x90, 0xab, 0xe6, 0x31, 0x53,
    0xf5, 0x04, 0x0c, 0x14, 0x3c, 0x44, 0xcc, 0x4f, 0xd1, 0x68, 0xb8, 0xd3, 0x6e, 0xb2, 0xcd, 0x4c,
    0xd4, 0x67, 0xa9, 0xe0, 0x3b, 0x4d, 0xd7, 0x62, 0xa6, 0xf1, 0x08, 0x18, 0x28, 0x78, 0x88, 0x83,
    0x9e, 0xb9, 0xd0, 0x6b, 0xbd, 0xdc, 0x7f, 0x81, 0x98, 0xb3, 0xce, 0x49, 0xdb, 0x76, 0x9a, 0xb5,
    0xc4, 0x57, 0xf9, 0x10, 0x30, 0x50, 0xf0, 0x0b, 0x1d, 0x27, 0x69, 0xbb, 0xd6, 0x61, 0xa3, 0xfe,
    0x19, 0x2b, 0x7d, 0x87, 0x92, 0xad, 0xec, 0x2f, 0x71, 0x93, 0xae, 0xe9, 0x20, 0x60, 0xa0, 0xfb,
    0x16, 0x3a, 0x4e, 0xd2, 0x6d, 0xb7, 0xc2, 0x5d, 0xe7, 0x32, 0x56, 0xfa, 0x15, 0x3f, 0x41, 0xc3,
    0x5e, 0xe2, 0x3d, 0x47, 0xc9, 0x40, 0xc0, 0x5b, 0xed, 0x2c, 0x74, 0x9c, 0xbf, 0xda, 0x75, 0x9f,
    0xba, 0xd5, 0x64, 0xac, 0xef, 0x2a, 0x7e, 0x82, 0x9d, 0xbc, 0xdf, 0x7a, 0x8e, 0x89, 0x80, 0x9b,
    0xb6, 0xc1, 0x58, 0xe8, 0x23, 0x65, 0xaf, 0xea, 0x25, 0x6f, 0xb1, 0xc8, 0x43, 0xc5, 0x54, 0xfc,
    0x1f, 0x21, 0x63, 0xa5, 0xf4, 0x07, 0x09, 0x1b, 0x2d, 0x77, 0x99, 0xb0, 0xcb, 0x46, 0xca, 0x45,
    0xcf, 0x4a, 0xde, 0x79, 0x8b, 0x86, 0x91, 0xa8, 0xe3, 0x3e, 0x42, 0xc6, 0x51, 0xf3, 0x0e, 0x12,
    0x36, 0x5a, 0xee, 0x29, 0x7b, 0x8d, 0x8c, 0x8f, 0x8a, 0x85, 0x94, 0xa7, 0xf2, 0x0d, 0x17, 0x39,
    0x4b, 0xdd, 0x7c, 0x84, 0x97, 0xa2, 0xfd, 0x1c, 0x24, 0x6c, 0xb4, 0xc7, 0x52, 0xf6, 0x01, 0x03,
];

/// `LOG_TABLE[a]` is the exponent below 255 whose power of `g` is `a`, for every `a` but
/// zero; entry zero stands for nothing and holds 0.
pub const LOG_TABLE: [u8; 256] = [
    0x00, 0x00, 0x19, 0x01, 0x32, 0x02, 0x1a, 0xc6, 0x4b, 0xc7, 0x1b, 0x68, 0x33, 0xee, 0xdf, 0x03,
    0x64, 0x04, 0xe0, 0x0e, 0x34, 0x8d, 0x81, 0xef, 0x4c, 0x71, 0x08, 0xc8, 0xf8, 0x69, 0x1c, 0xc1,
    0x7d, 0xc2, 0x1d, 0xb5, 0xf9, 0xb9, 0x27, 0x6a, 0x4d, 0xe4, 0xa6, 0x72, 0x9a, 0xc9, 0x09, 0x78,
    0x65, 0x2f, 0x8a, 0x05, 0x21, 0x0f, 0xe1, 0x24, 0x12, 0xf0, 0x82, 0x45, 0x35, 0x93, 0xda, 0x8e,
    0x96, 0x8f, 0xdb, 0xbd, 0x36, 0xd0, 0xce, 0x94, 0x13, 0x5c, 0xd2, 0xf1, 0x40, 0x46, 0x83, 0x38,
    0x66, 0xdd, 0xfd, 0x30, 0xbf, 0x06, 0x8b, 0x62, 0xb3, 0x25, 0xe2, 0x98, 0x22, 0x88, 0x91, 0x10,
    0x7e, 0x6e, 0x48, 0xc3, 0xa3, 0xb6, 0x1e, 0x42, 0x3a, 0x6b, 0x28, 0x54, 0xfa, 0x85, 0x3d, 0xba,
    0x2b, 0x79, 0x0a, 0x15, 0x9b, 0x9f, 0x5e, 0xca, 0x4e, 0xd4, 0xac, 0xe5, 0xf3, 0x73, 0xa7, 0x57,
    0xaf, 0x58, 0xa8, 0x50, 0xf4, 0xea, 0xd6, 0x74, 0x4f, 0xae, 0xe9, 0xd5, 0xe7, 0xe6, 0xad, 0xe8,
    0x2c, 0xd7, 0x75, 0x7a, 0xeb, 0x16, 0x0b, 0xf5, 0x59, 0xcb, 0x5f, 0xb0, 0x9c, 0xa9, 0x51, 0xa0,
    0x7f, 0x0c, 0xf6, 0x6f, 0x17, 0xc4, 0x49, 0xec, 0xd8, 0x43, 0x1f, 0x2d, 0xa4, 0x76, 0x7b, 0xb7,
    0xcc, 0xbb, 0x3e, 0x5a, 0xfb, 0x60, 0xb1, 0x86, 0x3b, 0x52, 0xa1, 0x6c, 0xaa, 0x55, 0x29, 0x9d,
    0x97, 0xb2, 0x87, 0x90, 0x61, 0xbe, 0xdc, 0xfc, 0xbc, 0x95, 0xcf, 0xcd, 0x37, 0x3f, 0x5b, 0xd1,
    0x53, 0x39, 0x84, 0x3c, 0x41, 0xa2, 0x6d, 0x47, 0x14, 0x2a, 0x9e, 0x5d, 0x56, 0xf2, 0xd3, 0xab,
    0x44, 0x11, 0x92, 0xd9, 0x23, 0x20, 0x2e, 0x89, 0xb4, 0x7c, 0xb8, 0x26, 0x77, 0x99, 0xe3, 0xa5,
    0x67, 0x4a, 0xed, 0xde, 0xc5, 0x31, 0xfe, 0x18, 0x0d, 0x63, 0x8c, 0x80, 0xc0, 0xf7, 0x70, 0x07,
];

/// Three times `a`.
#[verifier::opaque]
spec fn gf_triple(a: u8) -> u8 {
    field::gf_product(a, 3)
}

proof fn lemma_triples()
    ensures
        gf_triple(0x01) == 0x03, gf_triple(0x03) == 0x05, gf_triple(0x05) == 0x0f,
        gf_triple(0x0f) == 0x11, gf_triple(0x11) == 0x33, gf_triple(0x33) == 0x55,
        gf_triple(0x55) == 0xff, gf_triple(0xff) == 0x1a, gf_triple(0x1a) == 0x2e,
        gf_triple(0x2e) == 0x72, gf_triple(0x72) == 0x96, gf_triple(0x96) == 0xa1,
        gf_triple(0xa1) == 0xf8, gf_triple(0xf8) == 0x13, gf_triple(0x13) == 0x35,
        gf_triple(0x35) == 0x5f, gf_triple(0x5f) == 0xe1, gf_triple(0xe1) == 0x38,
        gf_triple(0x38) == 0x48, gf_triple(0x48) == 0xd8, gf_triple(0xd8) == 0x73,
        gf_triple(0x73) == 0x95, gf_triple(0x95) == 0xa4, gf_triple(0xa4) == 0xf7,
        gf_triple(0xf7) == 0x02, gf_triple(0x02) == 0x06, gf_triple(0x06) == 0x0a,
        gf_triple(0x0a) == 0x1e, gf_triple(0x1e) == 0x22, gf_triple(0x22) == 0x66,
        gf_triple(0x66) == 0xaa, gf_triple(0xaa) == 0xe5, gf_triple(0xe5) == 0x34,
        gf_triple(0x34) == 0x5c, gf_triple(0x5c) == 0xe4, gf_triple(0xe4) == 0x37,
        gf_triple(0x37) == 0x59, gf_triple(0x59) == 0xeb, gf_triple(0xeb) == 0x26,
        gf_triple(0x26) == 0x6a, gf_triple(0x6a) == 0xbe, gf_triple(0xbe) == 0xd9,
        gf_triple(0xd9) == 0x70, gf_triple(0x70) == 0x90, gf_triple(0x90) == 0xab,
        gf_triple(0xab) == 0xe6, gf_triple(0xe6) == 0x31, gf_triple(0x31) == 0x53,
        gf_triple(0x53) == 0xf5, gf_triple(0xf5) == 0x04, gf_triple(0x04) == 0x0c,
        gf_triple(0x0c) == 0x14, gf_triple(0x14) == 0x3c, gf_triple(0x3c) == 0x44,
        gf_triple(0x44) == 0xcc, gf_triple(0xcc) == 0x4f, gf_triple(0x4f) == 0xd1,
        gf_triple(0xd1) == 0x68, gf_triple(0x68) == 0xb8, gf_triple(0xb8) == 0xd3,
        gf_triple(0xd3) == 0x6e, gf_triple(0x6e) == 0xb2, gf_triple(0xb2) == 0xcd,
        gf_triple(0xcd) == 0x4c, gf_triple(0x4c) == 0xd4, gf_triple(0xd4) == 0x67,
        gf_triple(0x67) == 0xa9, gf_triple(0xa9) == 0xe0, gf_triple(0xe0) == 0x3b,
        gf_triple(0x3b) == 0x4d, gf_triple(0x4d) == 0xd7, gf_triple(0xd7) == 0x62,
        gf_triple(0x62) == 0xa6, gf_triple(0xa6) == 0xf1, gf_triple(0xf1) == 0x08,
        gf_triple(0x08) == 0x18, gf_triple(0x18) == 0x28, gf_triple(0x28) == 0x78,
        gf_triple(0x78) == 0x88, gf_triple(0x88) == 0x83, gf_triple(0x83) == 0x9e,
        gf_triple(0x9e) == 0xb9, gf_triple(0xb9) == 0xd0, gf_triple(0xd0) == 0x6b,
        gf_triple(0x6b) == 0xbd, gf_triple(0xbd) == 0xdc, gf_triple(0xdc) == 0x7f,
        gf_triple(0x7f) == 0x81, gf_triple(0x81) == 0x98, gf_triple(0x98) == 0xb3,
        gf_triple(0xb3) == 0xce, gf_triple(0xce) == 0x49, gf_triple(0x49) == 0xdb,
        gf_triple(0xdb) == 0x76, gf_triple(0x76) == 0x9a, gf_triple(0x9a) == 0xb5,
        gf_triple(0xb5) == 0xc4, gf_triple(0xc4) == 0x57, gf_triple(0x57) == 0xf9,
        gf_triple(0xf9) == 0x10, gf_triple(0x10) == 0x30, gf_triple(0x30) == 0x50,
        gf_triple(0x50) == 0xf0, gf_triple(0xf0) == 0x0b, gf_triple(0x0b) == 0x1d,
        gf_triple(0x1d) == 0x27, gf_triple(0x27) == 0x69, gf_triple(0x69) == 0xbb,
        gf_triple(0xbb) == 0xd6, gf_triple(0xd6) == 0x61, gf_triple(0x61) == 0xa3,
        gf_triple(0xa3) == 0xfe, gf_triple(0xfe) == 0x19, gf_triple(0x19) == 0x2b,
        gf_triple(0x2b) == 0x7d, gf_triple(0x7d) == 0x87, gf_triple(0x87) == 0x92,
        gf_triple(0x92) == 0xad, gf_triple(0xad) == 0xec, gf_triple(0xec) == 0x2f,
        gf_triple(0x2f) == 0x71, gf_triple(0x71) == 0x93, gf_triple(0x93) == 0xae,
        gf_triple(0xae) == 0xe9, gf_triple(0xe9) == 0x20, gf_triple(0x20) == 0x60,
        gf_triple(0x60) == 0xa0, gf_triple(0xa0) == 0xfb, gf_triple(0xfb) == 0x16,
        gf_triple(0x16) == 0x3a, gf_triple(0x3a) == 0x4e, gf_triple(0x4e) == 0xd2,
        gf_triple(0xd2) == 0x6d, gf_triple(0x6d) == 0xb7, gf_triple(0xb7) == 0xc2,
        gf_triple(0xc2) == 0x5d, gf_triple(0x5d) == 0xe7, gf_triple(0xe7) == 0x32,
        gf_triple(0x32) == 0x56, gf_triple(0x56) == 0xfa, gf_triple(0xfa) == 0x15,
        gf_triple(0x15) == 0x3f, gf_triple(0x3f) == 0x41, gf_triple(0x41) == 0xc3,
        gf_triple(0xc3) == 0x5e, gf_triple(0x5e) == 0xe2, gf_triple(0xe2) == 0x3d,
        gf_triple(0x3d) == 0x47, gf_triple(0x47) == 0xc9, gf_triple(0xc9) == 0x40,
        gf_triple(0x40) == 0xc0, gf_triple(0xc0) == 0x5b, gf_triple(0x5b) == 0xed,
        gf_triple(0xed) == 0x2c, gf_triple(0x2c) == 0x74, gf_triple(0x74) == 0x9c,
        gf_triple(0x9c) == 0xbf, gf_triple(0xbf) == 0xda, gf_triple(0xda) == 0x75,
        gf_triple(0x75) == 0x9f, gf_triple(0x9f) == 0xba, gf_triple(0xba) == 0xd5,
        gf_triple(0xd5) == 0x64, gf_triple(0x64) == 0xac, gf_triple(0xac) == 0xef,
        gf_triple(0xef) == 0x2a, gf_triple(0x2a) == 0x7e, gf_triple(0x7e) == 0x82,
        gf_triple(0x82) == 0x9d, gf_triple(0x9d) == 0xbc, gf_triple(0xbc) == 0xdf,
        gf_triple(0xdf) == 0x7a, gf_triple(0x7a) == 0x8e, gf_triple(0x8e) == 0x89,
        gf_triple(0x89) == 0x80, gf_triple(0x80) == 0x9b, gf_triple(0x9b) == 0xb6,
        gf_triple(0xb6) == 0xc1, gf_triple(0xc1) == 0x58, gf_triple(0x58) == 0xe8,
        gf_triple(0xe8) == 0x23, gf_triple(0x23) == 0x65, gf_triple(0x65) == 0xaf,
        gf_triple(0xaf) == 0xea, gf_triple(0xea) == 0x25, gf_triple(0x25) == 0x6f,
        gf_triple(0x6f) == 0xb1, gf_triple(0xb1) == 0xc8, gf_triple(0xc8) == 0x43,
        gf_triple(0x43) == 0xc5, gf_triple(0xc5) == 0x54, gf_triple(0x54) == 0xfc,
        gf_triple(0xfc) == 0x1f, gf_triple(0x1f) == 0x21, gf_triple(0x21) == 0x63,
        gf_triple(0x63) == 0xa5, gf_triple(0xa5) == 0xf4, gf_triple(0xf4) == 0x07,
        gf_triple(0x07) == 0x09, gf_triple(0x09) == 0x1b, gf_triple(0x1b) == 0x2d,
        gf_triple(0x2d) == 0x77, gf_triple(0x77) == 0x99, gf_triple(0x99) == 0xb0,
        gf_triple(0xb0) == 0xcb, gf_triple(0xcb) == 0x46, gf_triple(0x46) == 0xca,
        gf_triple(0xca) == 0x45, gf_triple(0x45) == 0xcf, gf_triple(0xcf) == 0x4a,
        gf_triple(0x4a) == 0xde, gf_triple(0xde) == 0x79, gf_triple(0x79) == 0x8b,
        gf_triple(0x8b) == 0x86, gf_triple(0x86) == 0x91, gf_triple(0x91) == 0xa8,
        gf_triple(0xa8) == 0xe3, gf_triple(0xe3) == 0x3e, gf_triple(0x3e) == 0x42,
        gf_triple(0x42) == 0xc6, gf_triple(0xc6) == 0x51, gf_triple(0x51) == 0xf3,
        gf_triple(0xf3) == 0x0e, gf_triple(0x0e) == 0x12, gf_triple(0x12) == 0x36,
        gf_triple(0x36) == 0x5a, gf_triple(0x5a) == 0xee, gf_triple(0xee) == 0x29,
        gf_triple(0x29) == 0x7b, gf_triple(0x7b) == 0x8d, gf_triple(0x8d) == 0x8c,
        gf_triple(0x8c) == 0x8f, gf_triple(0x8f) == 0x8a, gf_triple(0x8a) == 0x85,
        gf_triple(0x85) == 0x94, gf_triple(0x94) == 0xa7, gf_triple(0xa7) == 0xf2,
        gf_triple(0xf2) == 0x0d, gf_triple(0x0d) == 0x17, gf_triple(0x17) == 0x39,
        gf_triple(0x39) == 0x4b, gf_triple(0x4b) == 0xdd, gf_triple(0xdd) == 0x7c,
        gf_triple(0x7c) == 0x84, gf_triple(0x84) == 0x97, gf_triple(0x97) == 0xa2,
        gf_triple(0xa2) == 0xfd, gf_triple(0xfd) == 0x1c, gf_triple(0x1c) == 0x24,
        gf_triple(0x24) == 0x6c, gf_triple(0x6c) == 0xb4, gf_triple(0xb4) == 0xc7,
        gf_triple(0xc7) == 0x52, gf_triple(0x52) == 0xf6, gf_triple(0xf6) == 0x01,
{
    reveal(gf_triple);
    reveal(field::gf_product);
    assert(
        field::gf_product(0x01, 3) == 0x03 && field::gf_product(0x03, 3) == 0x05 && field::gf_product(0x05, 3) == 0x0f &&
        field::gf_product(0x0f, 3) == 0x11 && field::gf_product(0x11, 3) == 0x33 && field::gf_product(0x33, 3) == 0x55 &&
        field::gf_product(0x55, 3) == 0xff && field::gf_product(0xff, 3) == 0x1a && field::gf_product(0x1a, 3) == 0x2e &&
        field::gf_product(0x2e, 3) == 0x72 && field::gf_product(0x72, 3) == 0x96 && field::gf_product(0x96, 3) == 0xa1 &&
        field::gf_product(0xa1, 3) == 0xf8 && field::gf_product(0xf8, 3) == 0x13 && field::gf_product(0x13, 3) == 0x35 &&
        field::gf_product(0x35, 3) == 0x5f && field::gf_product(0x5f, 3) == 0xe1 && field::gf_product(0xe1, 3) == 0x38 &&
        field::gf_product(0x38, 3) == 0x48 && field::gf_product(0x48, 3) == 0xd8 && field::gf_product(0xd8, 3) == 0x73 &&
        field::gf_product(0x73, 3) == 0x95 && field::gf_product(0x95, 3) == 0xa4 && field::gf_product(0xa4, 3) == 0xf7 &&
        field::gf_product(0xf7, 3) == 0x02 && field::gf_product(0x02, 3) == 0x06 && field::gf_product(0x06, 3) == 0x0a &&
        field::gf_product(0x0a, 3) == 0x1e && field::gf_product(0x1e, 3) == 0x22 && field::gf_product(0x22, 3) == 0x66 &&
        field::gf_product(0x66, 3) == 0xaa && field::gf_product(0xaa, 3) == 0xe5 && field::gf_product(0xe5, 3) == 0x34 &&
        field::gf_product(0x34, 3) == 0x5c && field::gf_product(0x5c, 3) == 0xe4 && field::gf_product(0xe4, 3) == 0x37 &&
        field::gf_product(0x37, 3) == 0x59 && field::gf_product(0x59, 3) == 0xeb && field::gf_product(0xeb, 3) == 0x26 &&
        field::gf_product(0x26, 3) == 0x6a && field::gf_product(0x6a, 3) == 0xbe && field::gf_product(0xbe, 3) == 0xd9 &&
        field::gf_product(0xd9, 3) == 0x70 && field::gf_product(0x70, 3) == 0x90 && field::gf_product(0x90, 3) == 0xab &&
        field::gf_product(0xab, 3) == 0xe6 && field::gf_product(0xe6, 3) == 0x31 && field::gf_product(0x31, 3) == 0x53 &&
        field::gf_product(0x53, 3) == 0xf5 && field::gf_product(0xf5, 3) == 0x04 && field::gf_product(0x04, 3) == 0x0c &&
        field::gf_product(0x0c, 3) == 0x14 && field::gf_product(0x14, 3) == 0x3c && field::gf_product(0x3c, 3) == 0x44 &&
        field::gf_product(0x44, 3) == 0xcc && field::gf_product(0xcc, 3) == 0x4f && field::gf_product(0x4f, 3) == 0xd1 &&
        field::gf_product(0xd1, 3) == 0x68 && field::gf_product(0x68, 3) == 0xb8 && field::gf_product(0xb8, 3) == 0xd3 &&
        field::gf_product(0xd3, 3) == 0x6e && field::gf_product(0x6e, 3) == 0xb2 && field::gf_product(0xb2, 3) == 0xcd &&
        field::gf_product(0xcd, 3) == 0x4c && field::gf_product(0x4c, 3) == 0xd4 && field::gf_product(0xd4, 3) == 0x67 &&
        field::gf_product(0x67, 3) == 0xa9 && field::gf_product(0xa9, 3) == 0xe0 && field::gf_product(0xe0, 3) == 0x3b &&
        field::gf_product(0x3b, 3) == 0x4d && field::gf_product(0x4d, 3) == 0xd7 && field::gf_product(0xd7, 3) == 0x62 &&
        field::gf_product(0x62, 3) == 0xa6 && field::gf_product(0xa6, 3) == 0xf1 && field::gf_product(0xf1, 3) == 0x08 &&
        field::gf_product(0x08, 3) == 0x18 && field::gf_product(0x18, 3) == 0x28 && field::gf_product(0x28, 3) == 0x78 &&
        field::gf_product(0x78, 3) == 0x88 && field::gf_product(0x88, 3) == 0x83 && field::gf_product(0x83, 3) == 0x9e &&
        field::gf_product(0x9e, 3) == 0xb9 && field::gf_product(0xb9, 3) == 0xd0 && field::gf_product(0xd0, 3) == 0x6b &&
        field::gf_product(0x6b, 3) == 0xbd && field::gf_product(0xbd, 3) == 0xdc && field::gf_product(0xdc, 3) == 0x7f &&
        field::gf_product(0x7f, 3) == 0x81 && field::gf_product(0x81, 3) == 0x98 && field::gf_product(0x98, 3) == 0xb3 &&
        field::gf_product(0xb3, 3) == 0xce && field::gf_product(0xce, 3) == 0x49 && field::gf_product(0x49, 3) == 0xdb &&
        field::gf_product(0xdb, 3) == 0x76 && field::gf_product(0x76, 3) == 0x9a && field::gf_product(0x9a, 3) == 0xb5 &&
        field::gf_product(0xb5, 3) == 0xc4 && field::gf_product(0xc4, 3) == 0x57 && field::gf_product(0x57, 3) == 0xf9 &&
        field::gf_product(0xf9, 3) == 0x10 && field::gf_product(0x10, 3) == 0x30 && field::gf_product(0x30, 3) == 0x50 &&
        field::gf_product(0x50, 3) == 0xf0 && field::gf_product(0xf0, 3) == 0x0b && field::gf_product(0x0b, 3) == 0x1d &&
        field::gf_product(0x1d, 3) == 0x27 && field::gf_product(0x27, 3) == 0x69 && field::gf_product(0x69, 3) == 0xbb &&
        field::gf_product(0xbb, 3) == 0xd6 && field::gf_product(0xd6, 3) == 0x61 && field::gf_product(0x61, 3) == 0xa3 &&
        field::gf_product(0xa3, 3) == 0xfe && field::gf_product(0xfe, 3) == 0x19 && field::gf_product(0x19, 3) == 0x2b &&
        field::gf_product(0x2b, 3) == 0x7d && field::gf_product(0x7d, 3) == 0x87 && field::gf_product(0x87, 3) == 0x92 &&
        field::gf_product(0x92, 3) == 0xad && field::gf_product(0xad, 3) == 0xec && field::gf_product(0xec, 3) == 0x2f &&
        field::gf_product(0x2f, 3) == 0x71 && field::gf_product(0x71, 3) == 0x93 && field::gf_product(0x93, 3) == 0xae &&
        field::gf_product(0xae, 3) == 0xe9 && field::gf_product(0xe9, 3) == 0x20 && field::gf_product(0x20, 3) == 0x60 &&
        field::gf_product(0x60, 3) == 0xa0 && field::gf_product(0xa0, 3) == 0xfb && field::gf_product(0xfb, 3) == 0x16 &&
        field::gf_product(0x16, 3) == 0x3a && field::gf_product(0x3a, 3) == 0x4e && field::gf_product(0x4e, 3) == 0xd2 &&
        field::gf_product(0xd2, 3) == 0x6d && field::gf_product(0x6d, 3) == 0xb7 && field::gf_product(0xb7, 3) == 0xc2 &&
        field::gf_product(0xc2, 3) == 0x5d && field::gf_product(0x5d, 3) == 0xe7 && field::gf_product(0xe7, 3) == 0x32 &&
        field::gf_product(0x32, 3) == 0x56 && field::gf_product(0x56, 3) == 0xfa && field::gf_product(0xfa, 3) == 0x15 &&
        field::gf_product(0x15, 3) == 0x3f && field::gf_product(0x3f, 3) == 0x41 && field::gf_product(0x41, 3) == 0xc3 &&
        field::gf_product(0xc3, 3) == 0x5e && field::gf_product(0x5e, 3) == 0xe2 && field::gf_product(0xe2, 3) == 0x3d &&
        field::gf_product(0x3d, 3) == 0x47 && field::gf_product(0x47, 3) == 0xc9 && field::gf_product(0xc9, 3) == 0x40 &&
        field::gf_product(0x40, 3) == 0xc0 && field::gf_product(0xc0, 3) == 0x5b && field::gf_product(0x5b, 3) == 0xed &&
        field::gf_product(0xed, 3) == 0x2c && field::gf_product(0x2c, 3) == 0x74 && field::gf_product(0x74, 3) == 0x9c &&
        field::gf_product(0x9c, 3) == 0xbf && field::gf_product(0xbf, 3) == 0xda && field::gf_product(0xda, 3) == 0x75 &&
        field::gf_product(0x75, 3) == 0x9f && field::gf_product(0x9f, 3) == 0xba && field::gf_product(0xba, 3) == 0xd5 &&
        field::gf_product(0xd5, 3) == 0x64 && field::gf_product(0x64, 3) == 0xac && field::gf_product(0xac, 3) == 0xef &&
        field::gf_product(0xef, 3) == 0x2a && field::gf_product(0x2a, 3) == 0x7e && field::gf_product(0x7e, 3) == 0x82 &&
        field::gf_product(0x82, 3) == 0x9d && field::gf_product(0x9d, 3) == 0xbc && field::gf_product(0xbc, 3) == 0xdf &&
        field::gf_product(0xdf, 3) == 0x7a && field::gf_product(0x7a, 3) == 0x8e && field::gf_product(0x8e, 3) == 0x89 &&
        field::gf_product(0x89, 3) == 0x80 && field::gf_product(0x80, 3) == 0x9b && field::gf_product(0x9b, 3) == 0xb6 &&
        field::gf_product(0xb6, 3) == 0xc1 && field::gf_product(0xc1, 3) == 0x58 && field::gf_product(0x58, 3) == 0xe8 &&
        field::gf_product(0xe8, 3) == 0x23 && field::gf_product(0x23, 3) == 0x65 && field::gf_product(0x65, 3) == 0xaf &&
        field::gf_product(0xaf, 3) == 0xea && field::gf_product(0xea, 3) == 0x25 && field::gf_product(0x25, 3) == 0x6f &&
        field::gf_product(0x6f, 3) == 0xb1 && field::gf_product(0xb1, 3) == 0xc8 && field::gf_product(0xc8, 3) == 0x43 &&
        field::gf_product(0x43, 3) == 0xc5 && field::gf_product(0xc5, 3) == 0x54 && field::gf_product(0x54, 3) == 0xfc &&
        field::gf_product(0xfc, 3) == 0x1f && field::gf_product(0x1f, 3) == 0x21 && field::gf_product(0x21, 3) == 0x63 &&
        field::gf_product(0x63, 3) == 0xa5 && field::gf_product(0xa5, 3) == 0xf4 && field::gf_product(0xf4, 3) == 0x07 &&
        field::gf_product(0x07, 3) == 0x09 && field::gf_product(0x09, 3) == 0x1b && field::gf_product(0x1b, 3) == 0x2d &&
        field::gf_product(0x2d, 3) == 0x77 && field::gf_product(0x77, 3) == 0x99 && field::gf_product(0x99, 3) == 0xb0 &&
        field::gf_product(0xb0, 3) == 0xcb && field::gf_product(0xcb, 3) == 0x46 && field::gf_product(0x46, 3) == 0xca &&
        field::gf_product(0xca, 3) == 0x45 && field::gf_product(0x45, 3) == 0xcf && field::gf_product(0xcf, 3) == 0x4a &&
        field::gf_product(0x4a, 3) == 0xde && field::gf_product(0xde, 3) == 0x79 && field::gf_product(0x79, 3) == 0x8b &&
        field::gf_product(0x8b, 3) == 0x86 && field::gf_product(0x86, 3) == 0x91 && field::gf_product(0x91, 3) == 0xa8 &&
        field::gf_product(0xa8, 3) == 0xe3 && field::gf_product(0xe3, 3) == 0x3e && field::gf_product(0x3e, 3) == 0x42 &&
        field::gf_product(0x42, 3) == 0xc6 && field::gf_product(0xc6, 3) == 0x51 && field::gf_product(0x51, 3) == 0xf3 &&
        field::gf_product(0xf3, 3) == 0x0e && field::gf_product(0x0e, 3) == 0x12 && field::gf_product(0x12, 3) == 0x36 &&
        field::gf_product(0x36, 3) == 0x5a && field::gf_product(0x5a, 3) == 0xee && field::gf_product(0xee, 3) == 0x29 &&
        field::gf_product(0x29, 3) == 0x7b && field::gf_product(0x7b, 3) == 0x8d && field::gf_product(0x8d, 3) == 0x8c &&
        field::gf_product(0x8c, 3) == 0x8f && field::gf_product(0x8f, 3) == 0x8a && field::gf_product(0x8a, 3) == 0x85 &&
        field::gf_product(0x85, 3) == 0x94 && field::gf_product(0x94, 3) == 0xa7 && field::gf_product(0xa7, 3) == 0xf2 &&
        field::gf_product(0xf2, 3) == 0x0d && field::gf_product(0x0d, 3) == 0x17 && field::gf_product(0x17, 3) == 0x39 &&
        field::gf_product(0x39, 3) == 0x4b && field::gf_product(0x4b, 3) == 0xdd && field::gf_product(0xdd, 3) == 0x7c &&
        field::gf_product(0x7c, 3) == 0x84 && field::gf_product(0x84, 3) == 0x97 && field::gf_product(0x97, 3) == 0xa2 &&
        field::gf_product(0xa2, 3) == 0xfd && field::gf_product(0xfd, 3) == 0x1c && field::gf_product(0x1c, 3) == 0x24 &&
        field::gf_product(0x24, 3) == 0x6c && field::gf_product(0x6c, 3) == 0xb4 && field::gf_product(0xb4, 3) == 0xc7 &&
        field::gf_product(0xc7, 3) == 0x52 && field::gf_product(0x52, 3) == 0xf6 && field::gf_product(0xf6, 3) == 0x01
    ) by (bit_vector);
}

/// The `n` entries of `LOG_TABLE` after entry `lo` are logarithms.
spec fn log_run(lo: int, n: nat) -> bool
    decreases n,
{
    n == 0 || (log_run(lo, (n - 1) as nat) && LOG_TABLE@[lo + n] < 255
        && EXP_TABLE@[LOG_TABLE@[lo + n] as int] == lo + n)
}

/// The `n` entries of `EXP_TABLE` after entry `lo` are each three times the one before.
spec fn exp_run(lo: int, n: nat) -> bool
    decreases n,
{
    n == 0 || (exp_run(lo, (n - 1) as nat) && EXP_TABLE@[lo + n] == gf_triple(
        EXP_TABLE@[lo + n - 1],
    ))
}

/// The `n` entries of `EXP_TABLE` from entry `lo` on have their index as logarithm.
spec fn index_run(lo: int, n: nat) -> bool
    decreases n,
{
    n == 0 || (index_run(lo, (n - 1) as nat) && EXP_TABLE@[lo + n - 1] != 0
        && LOG_TABLE@[EXP_TABLE@[lo + n - 1] as int] == lo + n - 1)
}

/// The `n` entries of `EXP_TABLE` from entry `lo` on recur 255 places further on.
spec fn exp_repeat(lo: int, n: nat) -> bool
    decreases n,
{
    n == 0 || (exp_repeat(lo, (n - 1) as nat) && EXP_TABLE@[lo + n - 1 + 255] == EXP_TABLE@[lo + n
        - 1])
}

proof fn lemma_log_run_0()
    ensures
        log_run(0, 64),
{
    reveal_with_fuel(log_run, 65);
}

proof fn lemma_log_run_1()
    ensures
        log_run(64, 64),
{
    reveal_with_fuel(log_run, 65);
}

proof fn lemma_log_run_2()
    ensures
        log_run(128, 64),
{
    reveal_with_fuel(log_run, 65);
}

proof fn lemma_log_run_3()
    ensures
        log_run(192, 63),
{
    reveal_with_fuel(log_run, 64);
}

proof fn lemma_exp_run_0()
    ensures
        exp_run(0, 64),
{
    lemma_triples();
    reveal_with_fuel(exp_run, 65);
}

proof fn lemma_exp_run_1()
    ensures
        exp_run(64, 64),
{
    lemma_triples();
    reveal_with_fuel(exp_run, 65);
}

proof fn lemma_exp_run_2()
    ensures
        exp_run(128, 64),
{
    lemma_triples();
    reveal_with_fuel(exp_run, 65);
}

proof fn lemma_exp_run_3()
    ensures
        exp_run(192, 63),
{
    lemma_triples();
    reveal_with_fuel(exp_run, 64);
}

proof fn lemma_index_run_0()
    ensures
        index_run(0, 64),
{
    reveal_with_fuel(index_run, 65);
}

proof fn lemma_index_run_1()
    ensures
        index_run(64, 64),
{
    reveal_with_fuel(index_run, 65);
}

proof fn lemma_index_run_2()
    ensures
        index_run(128, 64),
{
    reveal_with_fuel(index_run, 65);
}

proof fn lemma_index_run_3()
    ensures
        index_run(192, 63),
{
    reveal_with_fuel(index_run, 64);
}

proof fn lemma_exp_repeat_0()
    ensures
        exp_repeat(0, 65),
{
    reveal_with_fuel(exp_repeat, 66);
}

proof fn lemma_exp_repeat_1()
    ensures
        exp_repeat(65, 65),
{
    reveal_with_fuel(exp_repeat, 66);
}

proof fn lemma_exp_repeat_2()
    ensures
        exp_repeat(130, 65),
{
    reveal_with_fuel(exp_repeat, 66);
}

proof fn lemma_exp_repeat_3()
    ensures
        exp_repeat(195, 62),
{
    reveal_with_fuel(exp_repeat, 63);
}

proof fn lemma_log_run_at(lo: int, n: nat, a: int)
    requires
        log_run(lo, n),
        lo < a <= lo + n,
    ensures
        LOG_TABLE@[a] < 255,
        EXP_TABLE@[LOG_TABLE@[a] as int] == a,
    decreases n,
{
    if a < lo + n {
        lemma_log_run_at(lo, (n - 1) as nat, a);
    }
}

proof fn lemma_exp_run_at(lo: int, n: nat, i: int)
    requires
        exp_run(lo, n),
        lo < i <= lo + n,
    ensures
        EXP_TABLE@[i] == field::gf_product(EXP_TABLE@[i - 1], 3),
    decreases n,
{
    if i < lo + n {
        lemma_exp_run_at(lo, (n - 1) as nat, i);
    } else {
        reveal(gf_triple);
    }
}

proof fn lemma_index_run_at(lo: int, n: nat, i: int)
    requires
        index_run(lo, n),
        lo <= i < lo + n,
    ensures
        EXP_TABLE@[i] != 0,
        LOG_TABLE@[EXP_TABLE@[i] as int] == i,
    decreases n,
{
    if i + 1 < lo + n {
        lemma_index_run_at(lo, (n - 1) as nat, i);
    }
}

proof fn lemma_exp_repeat_at(lo: int, n: nat, i: int)
    requires
        exp_repeat(lo, n),
        lo <= i < lo + n,
    ensures
        EXP_TABLE@[i + 255] == EXP_TABLE@[i],
    decreases n,
{
    if i + 1 < lo + n {
        lemma_exp_repeat_at(lo, (n - 1) as nat, i);
    }
}

/// The first cycle of `EXP_TABLE` and the entry behind it are powers of the generator.
proof fn lemma_exp_first_cycle(i: nat)
    requires
        i <= 255,
    ensures
        EXP_TABLE@[i as int] == field::gf_power(i),
    decreases i,
{
    if i == 0 {
        assert(EXP_TABLE@[0] == 1);
    } else {
        lemma_exp_first_cycle((i - 1) as nat);
        if i <= 64 {
            lemma_exp_run_0();
            lemma_exp_run_at(0, 64, i as int);
        } else if i <= 128 {
            lemma_exp_run_1();
            lemma_exp_run_at(64, 64, i as int);
        } else if i <= 192 {
            lemma_exp_run_2();
            lemma_exp_run_at(128, 64, i as int);
        } else {
            lemma_exp_run_3();
            lemma_exp_run_at(192, 63, i as int);
        }
    }
}

/// The table repeats with period 255.
pub proof fn lemma_exp_cycle(i: nat)
    requires
        i < 257,
    ensures
        EXP_TABLE@[i as int + 255] == EXP_TABLE@[i as int],
{
    if i < 65 {
        lemma_exp_repeat_0();
        lemma_exp_repeat_at(0, 65, i as int);
    } else if i < 130 {
        lemma_exp_repeat_1();
        lemma_exp_repeat_at(65, 65, i as int);
    } else if i < 195 {
        lemma_exp_repeat_2();
        lemma_exp_repeat_at(130, 65, i as int);
    } else {
        lemma_exp_repeat_3();
        lemma_exp_repeat_at(195, 62, i as int);
    }
}

/// The generator has order 255: powers recur with that period.
pub proof fn lemma_power_cycle(i: nat)
    ensures
        field::gf_power(255) == 1,
        field::gf_power(i + 255) == field::gf_power(i),
{
    lemma_exp_first_cycle(255);
    lemma_exp_first_cycle(0);
    lemma_exp_cycle(0);
    field::lemma_power_adds(i, 255);
    field::lemma_mul_one(field::gf_power(i));
}

/// Every entry of `EXP_TABLE` is the power of the generator that its index names.
pub proof fn lemma_exp_table(i: nat)
    requires
        i < 512,
    ensures
        EXP_TABLE@[i as int] == field::gf_power(i),
    decreases i,
{
    if i <= 255 {
        lemma_exp_first_cycle(i);
    } else {
        let m = (i - 255) as nat;
        lemma_exp_table(m);
        lemma_exp_cycle(m);
        lemma_power_cycle(m);
    }
}

/// Logarithm and power undo each other on every element but zero.
pub proof fn lemma_log_table(a: u8)
    requires
        a != 0,
    ensures
        LOG_TABLE@[a as int] < 255,
        EXP_TABLE@[LOG_TABLE@[a as int] as int] == a,
        field::gf_power(LOG_TABLE@[a as int] as nat) == a,
{
    if a <= 64 {
        lemma_log_run_0();
        lemma_log_run_at(0, 64, a as int);
    } else if a <= 128 {
        lemma_log_run_1();
        lemma_log_run_at(64, 64, a as int);
    } else if a <= 192 {
        lemma_log_run_2();
        lemma_log_run_at(128, 64, a as int);
    } else {
        lemma_log_run_3();
        lemma_log_run_at(192, 63, a as int);
    }
    lemma_exp_table(LOG_TABLE@[a as int] as nat);
}

/// The powers of one cycle are not zero, and each has its exponent as logarithm.
pub proof fn lemma_power_log(i: nat)
    requires
        i < 255,
    ensures
        field::gf_power(i) != 0,
        LOG_TABLE@[field::gf_power(i) as int] == i,
{
    lemma_exp_table(i);
    if i < 64 {
        lemma_index_run_0();
        lemma_index_run_at(0, 64, i as int);
    } else if i < 128 {
        lemma_index_run_1();
        lemma_index_run_at(64, 64, i as int);
    } else if i < 192 {
        lemma_index_run_2();
        lemma_index_run_at(128, 64, i as int);
    } else {
        lemma_index_run_3();
        lemma_index_run_at(192, 63, i as int);
    }
}

/// Every element but zero has an inverse.
pub proof fn lemma_inverse_exists(a: u8)
    requires
        a != 0,
    ensures
        exists|b: u8| field::gf_product(a, b) == 1,
{
    lemma_log_table(a);
    let e = LOG_TABLE@[a as int] as nat;
    field::lemma_power_adds(e, (255 - e) as nat);
    lemma_power_cycle(0);
    assert(field::gf_product(a, field::gf_power((255 - e) as nat)) == 1);
}

/// A product is zero only where one of its factors is.
pub proof fn lemma_no_zero_divisors(a: u8, b: u8)
    requires
        field::gf_product(a, b) == 0,
    ensures
        a == 0 || b == 0,
{
    if a != 0 {
        lemma_inverse_exists(a);
        let inverse = choose|c: u8| field::gf_product(a, c) == 1;
        field::lemma_mul_commutes(a, inverse);
        field::lemma_mul_associates(inverse, a, b);
        field::lemma_mul_one(b);
        field::lemma_mul_zero(inverse);
    }
}

/// Division has at most one result.
pub proof fn lemma_quotient_unique(p: u8, q: u8, b: u8)
    requires
        b != 0,
        field::gf_product(p, b) == field::gf_product(q, b),
    ensures
        p == q,
{
    field::lemma_mul_distributes_left(p, q, b);
    field::lemma_add_zero(field::gf_product(q, b));
    lemma_no_zero_divisors(p ^ q, b);
    field::lemma_add_cancels(p, q);
}

/// Product by repeated doubling, without tables.
pub fn gf_mul_slow(a: u8, b: u8) -> (result: u8)
    ensures
        result == field::gf_product(a, b),
{
    let mut x: u8 = a;
    let mut rest: u8 = b;
    let mut sum: u8 = 0;
    proof {
        field::lemma_add_zero(field::gf_product(a, b));
    }
    while rest > 0
        invariant
            sum ^ field::gf_product(x, rest) == field::gf_product(a, b),
        decreases rest,
    {
        proof {
            field::lemma_mul_halves(x, rest);
            field::lemma_add_associates(
                sum,
                field::gf_select(rest, 0, x),
                field::gf_product(field::gf_xtime(x), rest >> 1),
            );
            field::lemma_add_zero(sum);
            assert(rest > 0 ==> rest >> 1 < rest) by (bit_vector);
            assert(rest & 1 == rest & (1u8 << 0)) by (bit_vector);
            assert((x & 0x80 == 0 ==> (x << 1) == field::gf_xtime(x)) && (x & 0x80 != 0 ==> (x << 1)
                ^ 0x1b == field::gf_xtime(x))) by (bit_vector);
        }
        if rest & 1 != 0 {
            sum = sum ^ x;
        }
        let high: u8 = x & 0x80;
        x = x << 1;
        if high != 0 {
            x = x ^ 0x1b;
        }
        rest = rest >> 1;
    }
    proof {
        field::lemma_mul_zero(x);
        field::lemma_add_zero(sum);
    }
    sum
}

/// One cycle of powers of the generator, written twice, each computed from the one before.
#[verifier::spinoff_prover]
#[verifier::rlimit(50)]
fn write_cycle_twice() -> (table: [u8; 512])
    ensures
        forall|i: int| 0 <= i < 255 ==> #[trigger] table@[i] == field::gf_power(i as nat),
        forall|i: int|
            255 <= i < 510 ==> #[trigger] table@[i] == field::gf_power((i - 255) as nat),
{
    let mut table: [u8; 512] = [0u8; 512];
    let mut x: u8 = 1;
    let mut i: usize = 0;
    while i < 255
        invariant
            i <= 255,
            x == field::gf_power(i as nat),
            forall|j: int| 0 <= j < i ==> #[trigger] table@[j] == field::gf_power(j as nat),
            forall|j: int|
                255 <= j < i + 255 ==> #[trigger] table@[j] == field::gf_power((j - 255) as nat),
        decreases 255 - i,
    {
        table[i] = x;
        table[i + 255] = x;
        x = gf_mul_slow(x, 3);
        i = i + 1;
    }
    table
}

/// Whether a table holds the powers of the generator, two cycles of them and two more.
pub open spec fn are_powers(table: Seq<u8>) -> bool {
    &&& table.len() == 512
    &&& forall|i: int| 0 <= i < 512 ==> #[trigger] table[i] == field::gf_power(i as nat)
}

/// The powers of the generator, two cycles of them.
#[verifier::spinoff_prover]
#[verifier::rlimit(50)]
pub fn build_exp_table() -> (table: [u8; 512])
    ensures
        are_powers(table@),
{
    let mut table: [u8; 512] = write_cycle_twice();
    table[510] = 1;
    table[511] = 3;
    proof {
        assert forall|j: int| 0 <= j < 512 implies #[trigger] table@[j] == field::gf_power(
            j as nat,
        ) by {
            field::lemma_mul_one(3);
            reveal_with_fuel(field::gf_power, 2);
            if j >= 255 {
                lemma_power_cycle((j - 255) as nat);
            }
            if j >= 510 {
                lemma_power_cycle((j - 510) as nat);
            }
        }
    }
    table
}

/// The last place among the first `n` of a table at which an element stands, zero where it
/// stands at none.
pub open spec fn last_place(exp: Seq<u8>, n: nat, a: u8) -> u8
    decreases n,
{
    if n == 0 {
        0
    } else if exp[n - 1] == a {
        (n - 1) as u8
    } else {
        last_place(exp, (n - 1) as nat, a)
    }
}

/// Whether a table of powers and one of logarithms undo each other: every element but zero
/// is the power that its logarithm names, and every power of one cycle is not zero and has
/// its exponent as logarithm.
pub open spec fn undo_each_other(exp: Seq<u8>, log: Seq<u8>) -> bool {
    &&& forall|a: int| 1 <= a < 256 ==> (#[trigger] log[a]) <= 254 && exp[log[a] as int] == a
    &&& forall|i: int| 0 <= i < 255 ==> (#[trigger] exp[i]) != 0 && log[exp[i] as int] == i
}

/// The places in the first cycle of a table at which the elements stand: of a table of
/// powers, the logarithms.
#[verifier::spinoff_prover]
#[verifier::rlimit(50)]
pub fn build_log_table(exp: &[u8; 512]) -> (table: [u8; 256])
    ensures
        forall|a: int| 0 <= a < 256 ==> #[trigger] table@[a] == last_place(exp@, 255, a as u8),
        are_powers(exp@) ==> undo_each_other(exp@, table@),
{
    let mut table: [u8; 256] = [0u8; 256];
    let mut i: usize = 0;
    while i < 255
        invariant
            i <= 255,
            forall|a: int|
                0 <= a < 256 ==> #[trigger] table@[a] == last_place(exp@, i as nat, a as u8),
        decreases 255 - i,
    {
        table[exp[i] as usize] = i as u8;
        i = i + 1;
    }
    proof {
        if are_powers(exp@) {
            lemma_places_of_powers(exp@, table@);
        }
    }
    table
}

proof fn lemma_last_place(exp: Seq<u8>, n: nat, i: int)
    requires
        0 <= i < n <= 255,
        forall|j: int| 0 <= j < n && j != i ==> #[trigger] exp[j] != exp[i],
    ensures
        last_place(exp, n, exp[i]) == i,
    decreases n,
{
    if i < n - 1 {
        lemma_last_place(exp, (n - 1) as nat, i);
    }
}

proof fn lemma_places_of_powers(exp: Seq<u8>, log: Seq<u8>)
    requires
        are_powers(exp),
        forall|a: int| 0 <= a < 256 ==> #[trigger] log[a] == last_place(exp, 255, a as u8),
    ensures
        undo_each_other(exp, log),
{
    assert forall|i: int| 0 <= i < 255 implies (#[trigger] exp[i]) != 0 && log[exp[i] as int]
        == i by {
        lemma_power_log(i as nat);
        assert forall|j: int| 0 <= j < 255 && j != i implies #[trigger] exp[j] != exp[i] by {
            lemma_power_log(j as nat);
        }
        lemma_last_place(exp, 255, i);
    }
    assert forall|a: int| 1 <= a < 256 implies (#[trigger] log[a]) <= 254 && exp[log[a] as int]
        == a by {
        lemma_log_table(a as u8);
        let e = LOG_TABLE@[a] as int;
        assert(exp[e] == a);
        assert(log[exp[e] as int] == e);
    }
}

/// The tables that are built are the constants.
#[verifier::spinoff_prover]
#[verifier::rlimit(50)]
pub proof fn lemma_built_tables(exp: [u8; 512], log: [u8; 256])
    requires
        are_powers(exp@),
        forall|a: int| 0 <= a < 256 ==> #[trigger] log@[a] == last_place(exp@, 255, a as u8),
    ensures
        exp == EXP_TABLE,
        log == LOG_TABLE,
{
    assert forall|j: int| 0 <= j < 512 implies #[trigger] exp@[j] == EXP_TABLE@[j] by {
        lemma_exp_table(j as nat);
    }
    assert(exp =~= EXP_TABLE);
    lemma_places_of_powers(exp@, log@);
    assert forall|a: int| 0 <= a < 256 implies #[trigger] log@[a] == LOG_TABLE@[a] by {
        if a == 0 {
            lemma_zero_nowhere(exp@, 255);
            assert(LOG_TABLE@[0] == 0);
        } else {
            lemma_log_table(a as u8);
            let e = LOG_TABLE@[a] as int;
            assert(exp@[e] == a);
            assert(log@[exp@[e] as int] == e);
        }
    }
    assert(log =~= LOG_TABLE);
}

proof fn lemma_zero_nowhere(exp: Seq<u8>, n: nat)
    requires
        are_powers(exp),
        n <= 255,
    ensures
        last_place(exp, n, 0) == 0,
    decreases n,
{
    if n > 0 {
        lemma_power_log((n - 1) as nat);
        assert(exp[n - 1] != 0);
        lemma_zero_nowhere(exp, (n - 1) as nat);
    }
}

/// Sum of two elements.
pub fn gf_add(a: u8, b: u8) -> (sum: u8)
    ensures
        sum == a ^ b,
{
    a ^ b
}

/// Product of two elements.
pub fn gf_mul(a: u8, b: u8) -> (product: u8)
    ensures
        product == field::gf_product(a, b),
{
    if a == 0 || b == 0 {
        proof {
            field::lemma_mul_zero(a);
            field::lemma_mul_zero(b);
        }
        return 0;
    }
    let log_a: usize = LOG_TABLE[a as usize] as usize;
    let log_b: usize = LOG_TABLE[b as usize] as usize;
    proof {
        lemma_log_table(a);
        lemma_log_table(b);
        lemma_exp_table((log_a + log_b) as nat);
        field::lemma_power_adds(log_a as nat, log_b as nat);
    }
    EXP_TABLE[log_a + log_b]
}

/// The quotient `a / b`: the one element whose product with `b` is `a`.
pub fn gf_div(a: u8, b: u8) -> (quotient: u8)
    requires
        b != 0,
    ensures
        field::gf_product(quotient, b) == a,
{
    if a == 0 {
        proof {
            field::lemma_mul_zero(b);
        }
        return 0;
    }
    let log_a: usize = LOG_TABLE[a as usize] as usize;
    let log_b: usize = LOG_TABLE[b as usize] as usize;
    proof {
        lemma_log_table(a);
        lemma_log_table(b);
        let e = (log_a + 255 - log_b) as nat;
        lemma_exp_table(e);
        field::lemma_power_adds(e, log_b as nat);
        assert(e + log_b as nat == log_a as nat + 255);
        lemma_power_cycle(log_a as nat);
    }
    EXP_TABLE[log_a + 255 - log_b]
}

/// The multiplicative inverse.
pub fn gf_inv(a: u8) -> (inverse: u8)
    requires
        a != 0,
    ensures
        field::gf_product(a, inverse) == 1,
{
    let log_a: usize = LOG_TABLE[a as usize] as usize;
    proof {
        lemma_log_table(a);
        let e = (255 - log_a) as nat;
        lemma_exp_table(e);
        field::lemma_power_adds(log_a as nat, e);
        lemma_power_cycle(0);
    }
    EXP_TABLE[255 - log_a]
}

/// Adds `coeff` times `src` to `dst`, entry by entry.
pub fn gf_vec_mul_add(dst: &mut [u8], src: &[u8], coeff: u8)
    requires
        old(dst)@.len() == src@.len(),
    ensures
        final(dst)@ == Seq::new(
            src@.len(),
            |i: int| old(dst)@[i] ^ field::gf_product(coeff, src@[i]),
        ),
{
    if coeff == 0 {
        proof {
            assert forall|i: int| 0 <= i < src@.len() implies #[trigger] dst@[i]
                ^ field::gf_product(0, src@[i]) == dst@[i] by {
                field::lemma_mul_zero(src@[i]);
                field::lemma_add_zero(dst@[i]);
            }
            assert(dst@ =~= Seq::new(
                src@.len(),
                |i: int| old(dst)@[i] ^ field::gf_product(coeff, src@[i]),
            ));
        }
        return ;
    }
    let len: usize = src.len();
    if coeff == 1 {
        let mut i: usize = 0;
        while i < len
            invariant
                i <= len,
                coeff == 1,
                len == src@.len(),
                dst@.len() == len,
                old(dst)@.len() == len,
                forall|j: int| i <= j < len ==> dst@[j] == old(dst)@[j],
                forall|j: int|
                    0 <= j < i ==> #[trigger] dst@[j] == old(dst)@[j] ^ field::gf_product(
                        coeff,
                        src@[j],
                    ),
            decreases len - i,
        {
            proof {
                field::lemma_mul_one(src@[i as int]);
            }
            dst[i] = dst[i] ^ src[i];
            i = i + 1;
        }
        return ;
    }
    let log_c: usize = LOG_TABLE[coeff as usize] as usize;
    let mut i: usize = 0;
    while i < len
        invariant
            i <= len,
            coeff != 0,
            log_c == LOG_TABLE@[coeff as int],
            len == src@.len(),
            dst@.len() == len,
            old(dst)@.len() == len,
            forall|j: int| i <= j < len ==> dst@[j] == old(dst)@[j],
            forall|j: int|
                0 <= j < i ==> #[trigger] dst@[j] == old(dst)@[j] ^ field::gf_product(
                    coeff,
                    src@[j],
                ),
        decreases len - i,
    {
        let s: u8 = src[i];
        if s != 0 {
            let log_s: usize = LOG_TABLE[s as usize] as usize;
            proof {
                lemma_log_table(coeff);
                lemma_log_table(s);
                lemma_exp_table((log_c + log_s) as nat);
                field::lemma_power_adds(log_c as nat, log_s as nat);
            }
            dst[i] = dst[i] ^ EXP_TABLE[log_c + log_s];
        } else {
            proof {
                field::lemma_mul_zero(coeff);
                field::lemma_add_zero(dst@[i as int]);
            }
        }
        i = i + 1;
    }
}

}
