//! Encoding, decoding and recoding.

use std::collections::HashMap;

use craftec::crypto::hommac;
use craftec::crypto::sign::verify_signature;
use craftec::crypto::sign::KeyStore;
use craftec::rlnc::decoder::RlncDecoder;
use craftec::rlnc::encoder::target_n;
use craftec::rlnc::encoder::RlncEncoder;
use craftec::rlnc::engine::RlncEngine;
use craftec::rlnc::error::RlncError;
use craftec::rlnc::recoder::pieces_fit;
use craftec::rlnc::recoder::RlncRecoder;
use craftec::types::cid::Cid;
use craftec::types::piece::CodedPiece;
use craftec::types::wire::WireMessage;

fn make_encoder(size: usize, k: u32) -> RlncEncoder {
    let data: Vec<u8> = (0..size).map(|i| (i % 251) as u8).collect();
    match RlncEncoder::new(&data, k) {
        Ok(encoder) => encoder,
        Err(e) => panic!("encoder construction failed: {}", e.message()),
    }
}

fn encoder_of(data: &[u8], k: u32) -> RlncEncoder {
    match RlncEncoder::new(data, k) {
        Ok(encoder) => encoder,
        Err(e) => panic!("encoder: {}", e.message()),
    }
}

fn make_pieces(data: &[u8], k: u32, count: usize) -> Vec<CodedPiece> {
    encoder_of(data, k).encode_n(count)
}

fn roundtrip(data: &[u8], k: u32) -> Vec<u8> {
    let encoder = encoder_of(data, k);
    let pieces = encoder.encode_n(encoder.target_pieces() as usize);
    let mut decoder = RlncDecoder::new(k, encoder.piece_size());
    for piece in &pieces {
        let _ = decoder.add_piece(piece);
        if decoder.is_decodable() {
            break;
        }
    }
    assert!(decoder.is_decodable(), "decoder did not reach full rank");
    decoder.decode().expect("decode failed")
}

fn test_data(size: usize) -> Vec<u8> {
    (0..size).map(|i| (i % 251) as u8).collect()
}

// Encoder

#[test]
fn construction_splits_correctly() {
    let enc = make_encoder(1024, 4);
    assert_eq!(enc.k(), 4);
    assert_eq!(enc.original_pieces().len(), 4);
    assert_eq!(enc.piece_size(), 256);
}

#[test]
fn padding_fills_zeros() {
    let data = vec![1u8, 2, 3, 4, 5, 6, 7];
    let enc = encoder_of(&data, 3);
    assert_eq!(enc.piece_size(), 3);
    assert_eq!(enc.original_pieces()[2], vec![7u8, 0, 0]);
}

#[test]
fn cid_is_deterministic() {
    let data = vec![42u8; 512];
    let enc1 = encoder_of(&data, 8);
    let enc2 = encoder_of(&data, 8);
    assert_eq!(enc1.cid(), enc2.cid());
}

#[test]
fn encode_piece_has_correct_metadata() {
    let enc = make_encoder(4096, 8);
    let piece = enc.encode_piece();
    assert_eq!(piece.cid, *enc.cid());
    assert_eq!(piece.coding_vector.len(), enc.k() as usize);
    assert_eq!(piece.data.len(), enc.piece_size());
    assert!(piece.verify_piece_id(), "piece_id should match BLAKE3(data)");
    assert!(piece.verify_mac(), "HomMAC tag should verify");
}

#[test]
fn encode_n_produces_correct_count() {
    let enc = make_encoder(2048, 4);
    let n = enc.target_pieces() as usize;
    let pieces = enc.encode_n(n);
    assert_eq!(pieces.len(), n);
}

#[test]
fn target_pieces_formula() {
    let enc = make_encoder(32 * 256, 32);
    assert_eq!(enc.target_pieces(), 80);
}

#[test]
fn target_numbers() {
    assert_eq!(target_n(0), 0);
    assert_eq!(target_n(1), 18);
    assert_eq!(target_n(8), 32);
    assert_eq!(target_n(16), 48);
    assert_eq!(target_n(22), 60);
}

#[test]
fn coding_vectors_are_dense() {
    let enc = make_encoder(1024, 16);
    for _ in 0..10 {
        let piece = enc.encode_piece();
        assert!(
            piece.coding_vector.iter().all(|&c| c != 0),
            "coding vector contained a zero coefficient"
        );
    }
}

#[test]
fn empty_data_encodes() {
    let enc = encoder_of(&[], 4);
    let piece = enc.encode_piece();
    assert_eq!(piece.data.len(), enc.piece_size());
    assert_eq!(enc.piece_size(), 1);
}

#[test]
fn zero_k_returns_error() {
    let result = RlncEncoder::new(&[1, 2, 3], 0);
    assert!(matches!(result, Err(RlncError::InsufficientPieces { have: 0, need: 1 })));
}

#[test]
fn encode_with_combines_blocks() {
    let enc = encoder_of(&[1, 2, 3, 4], 2);
    let piece = enc.encode_with(vec![2, 3]);
    // 2·1 + 3·3 and 2·2 + 3·4.
    assert_eq!(piece.data, vec![0x02 ^ 0x05, 0x04 ^ 0x0c]);
    assert!(piece.verify_piece_id());
    assert!(piece.verify_mac());
}

// Decoder

#[test]
fn roundtrip_small() {
    let data = b"Hello, RLNC world!";
    let recovered = roundtrip(data, 4);
    assert_eq!(&recovered[..data.len()], data);
}

#[test]
fn roundtrip_exact_block() {
    let data: Vec<u8> = (0u16..256).map(|i| i as u8).collect();
    let recovered = roundtrip(&data, 4);
    assert_eq!(&recovered[..256], data.as_slice());
}

#[test]
fn roundtrip_k32() {
    let data: Vec<u8> = (0..8192).map(|i| (i % 251) as u8).collect();
    let recovered = roundtrip(&data, 32);
    assert_eq!(&recovered[..8192], data.as_slice());
}

#[test]
fn roundtrip_all_zeros() {
    let data = vec![0u8; 1024];
    let recovered = roundtrip(&data, 8);
    assert!(recovered.iter().all(|&b| b == 0));
}

#[test]
fn roundtrip_all_ones() {
    let data = vec![0xFF_u8; 512];
    let recovered = roundtrip(&data, 4);
    assert_eq!(&recovered[..512], data.as_slice());
}

#[test]
fn add_piece_rejects_wrong_coding_vector_length() {
    let mut dec = RlncDecoder::new(4, 64);
    let enc = encoder_of(&vec![0u8; 256], 8);
    let piece = enc.encode_piece();
    let result = dec.add_piece(&piece);
    assert!(matches!(result, Err(RlncError::CodingVectorLengthMismatch { expected: 4, got: 8 })));
}

#[test]
fn add_piece_rejects_wrong_data_size() {
    let cid = Cid::from_data(b"test");
    let cv = vec![1u8; 4];
    let data = vec![0u8; 32];
    let tag = [0u8; 32];
    let piece = CodedPiece::new(cid, cv, data, tag);

    let mut dec = RlncDecoder::new(4, 64);
    let result = dec.add_piece(&piece);
    assert!(matches!(result, Err(RlncError::InvalidPieceSize { expected: 64, got: 32 })));
}

#[test]
fn decode_requires_full_rank() {
    let encoder = encoder_of(&vec![1u8; 512], 8);
    let mut decoder = RlncDecoder::new(8, encoder.piece_size());
    let pieces = encoder.encode_n(4);
    for p in &pieces {
        let _ = decoder.add_piece(p);
    }
    let result = decoder.decode();
    assert!(matches!(result, Err(RlncError::InsufficientPieces { need: 8, .. })));
}

#[test]
fn dependent_piece_is_discarded() {
    let encoder = encoder_of(&vec![7u8; 64], 4);
    let mut decoder = RlncDecoder::new(4, encoder.piece_size());
    let piece = encoder.encode_piece();
    let r1 = decoder.add_piece(&piece).unwrap();
    let r2 = decoder.add_piece(&piece).unwrap();
    assert!(r1, "first piece should be accepted");
    assert!(!r2, "duplicate piece should be rejected as dependent");
}

#[test]
fn rank_grows_with_independent_pieces() {
    let encoder = encoder_of(b"abcdef", 2);
    let mut decoder = RlncDecoder::new(2, encoder.piece_size());
    assert_eq!(decoder.rank(), 0);
    assert!(decoder.add_piece(&encoder.encode_with(vec![1, 0])).unwrap());
    assert_eq!(decoder.rank(), 1);
    assert!(!decoder.is_decodable());
    assert!(decoder.add_piece(&encoder.encode_with(vec![5, 7])).unwrap());
    assert_eq!(decoder.rank(), 2);
    assert!(decoder.is_decodable());
    assert!(!decoder.is_decoded());
    assert_eq!(decoder.decode().unwrap(), b"abcdef".to_vec());
    assert!(decoder.is_decoded());
    assert!(!decoder.add_piece(&encoder.encode_with(vec![9, 1])).unwrap());
}

// Recoder

#[test]
fn recode_requires_two_pieces() {
    let pieces = make_pieces(&[1u8; 256], 4, 1);
    let result = RlncRecoder::recode(&pieces);
    assert!(matches!(result, Err(RlncError::InsufficientRecodeInputs { got: 1 })));
}

#[test]
fn recode_rejects_empty() {
    let result = RlncRecoder::recode(&[]);
    assert!(matches!(result, Err(RlncError::InsufficientRecodeInputs { got: 0 })));
}

#[test]
fn recode_rejects_mismatched_cids() {
    let enc1 = encoder_of(b"data A", 2);
    let enc2 = encoder_of(b"data B", 2);
    assert_ne!(enc1.cid(), enc2.cid());

    let p1 = enc1.encode_piece();
    let p2 = enc2.encode_piece();
    let result = RlncRecoder::recode(&[p1, p2]);
    assert!(matches!(result, Err(RlncError::MismatchedCids)));
}

#[test]
fn recoded_piece_has_same_cid() {
    let data = vec![42u8; 512];
    let pieces = make_pieces(&data, 4, 4);
    let recoded = RlncRecoder::recode(&pieces).unwrap();
    assert_eq!(recoded.cid, pieces[0].cid);
}

#[test]
fn recoded_piece_id_is_correct() {
    let data = vec![99u8; 256];
    let pieces = make_pieces(&data, 4, 3);
    let recoded = RlncRecoder::recode(&pieces).unwrap();
    assert!(recoded.verify_piece_id(), "PieceId of recoded piece is wrong");
}

#[test]
fn recoded_piece_coding_vector_length() {
    let k = 8u32;
    let data = vec![7u8; 1024];
    let pieces = make_pieces(&data, k, 5);
    let recoded = RlncRecoder::recode(&pieces).unwrap();
    assert_eq!(
        recoded.coding_vector.len(),
        k as usize,
        "recoded coding vector has wrong length"
    );
}

#[test]
fn recoded_piece_is_decodable() {
    let data: Vec<u8> = (0..512).map(|i| (i % 251) as u8).collect();
    let k = 8u32;

    let encoder = encoder_of(&data, k);
    let n = encoder.target_pieces() as usize;
    let mut original_pieces = encoder.encode_n(n);

    let to_recode = original_pieces[..2].to_vec();
    let recoded = RlncRecoder::recode(&to_recode).unwrap();
    original_pieces[0] = recoded;

    let mut decoder = RlncDecoder::new(k, encoder.piece_size());
    for piece in &original_pieces {
        match decoder.add_piece(piece) {
            Ok(_) => {}
            Err(e) => panic!("add_piece error: {:?}", e),
        }
        if decoder.is_decodable() {
            break;
        }
    }

    if decoder.is_decodable() {
        let recovered = decoder.decode().expect("decode failed");
        assert_eq!(&recovered[..data.len()], data.as_slice());
    }
}

#[test]
fn recode_from_many_inputs() {
    let data = vec![0xABu8; 2048];
    let pieces = make_pieces(&data, 16, 10);
    let recoded = RlncRecoder::recode(&pieces).unwrap();
    assert_eq!(recoded.coding_vector.len(), 16);
    assert_eq!(recoded.data.len(), pieces[0].data.len());
    assert!(recoded.verify_piece_id());
}

#[test]
fn recode_with_known_scalars() {
    let encoder = encoder_of(&[1, 2, 3, 4], 2);
    let a = encoder.encode_with(vec![1, 0]);
    let b = encoder.encode_with(vec![0, 1]);
    let fresh = RlncRecoder::recode_with(&[a, b], &[2, 3]).unwrap();
    let direct = encoder.encode_with(vec![2, 3]);
    assert_eq!(fresh.coding_vector, vec![2, 3]);
    assert_eq!(fresh.data, direct.data);
}

#[test]
fn pieces_of_one_shape_fit() {
    let a = make_pieces(&[1u8; 64], 4, 2);
    assert!(pieces_fit(&a));
    let mut b = make_pieces(&[1u8; 64], 4, 1);
    b.push(make_pieces(&[1u8; 64], 8, 1).pop().unwrap());
    assert!(!pieces_fit(&b));
}

// Engine

#[test]
fn encode_decode_roundtrip() {
    let mut engine = RlncEngine::new();
    let data = test_data(4096);
    let pieces = engine.encode(&data, 8).unwrap();
    let piece_size = pieces[0].data.len();
    let recovered = engine.decode(8, piece_size, &pieces).unwrap();
    assert_eq!(&recovered[..data.len()], data.as_slice());
}

#[test]
fn duplicates_and_odd_pieces_do_no_harm() {
    let mut engine = RlncEngine::new();
    let data = test_data(1000);
    let encoder = encoder_of(&data, 4);
    // Coding vectors of ones on and below the diagonal are independent.
    let good: Vec<CodedPiece> = (0..4usize)
        .map(|i| {
            let vector: Vec<u8> = (0..4usize).map(|j| if j <= i { 1 } else { 0 }).collect();
            encoder.encode_with(vector)
        })
        .collect();
    let piece_size = good[0].data.len();
    let other = make_pieces(&test_data(10), 3, 2);
    let mut received: Vec<CodedPiece> = Vec::new();
    for (i, piece) in good.iter().enumerate() {
        received.push(other[i % 2].clone());
        received.push(piece.clone());
        received.push(piece.clone());
    }
    let recovered = engine.decode(4, piece_size, &received).unwrap();
    assert_eq!(recovered.len(), 4 * piece_size);
    assert_eq!(&recovered[..data.len()], data.as_slice());
    assert!(recovered[data.len()..].iter().all(|b| *b == 0));
    assert_eq!(engine.metrics().decodes, 1);

    // One of them missing, and it is not enough.
    let short: Vec<CodedPiece> = received[..9].to_vec();
    assert!(matches!(
        engine.decode(4, piece_size, &short),
        Err(RlncError::InsufficientPieces { have: 3, need: 4 })
    ));
    assert_eq!(engine.metrics().decodes, 1);
}

#[test]
fn encode_decode_k32() {
    let mut engine = RlncEngine::new();
    let data = test_data(32 * 256);
    let pieces = engine.encode(&data, 32).unwrap();
    let piece_size = pieces[0].data.len();
    let recovered = engine.decode(32, piece_size, &pieces).unwrap();
    assert_eq!(&recovered[..data.len()], data.as_slice());
}

#[test]
fn recode_via_engine() {
    let mut engine = RlncEngine::new();
    let data = test_data(1024);
    let pieces = engine.encode(&data, 4).unwrap();
    let recoded = engine.recode(&pieces[..3]).unwrap();
    assert_eq!(recoded.cid, pieces[0].cid);
    assert!(recoded.verify_piece_id());
}

#[test]
fn metrics_increment() {
    let mut engine = RlncEngine::new();
    let data = test_data(512);

    let pieces = engine.encode(&data, 4).unwrap();
    let snap = engine.metrics().snapshot();
    assert_eq!(snap.encodes, 1);
    assert_eq!(snap.encode_bytes, 512);

    let piece_size = pieces[0].data.len();
    engine.decode(4, piece_size, &pieces).unwrap();
    let snap = engine.metrics().snapshot();
    assert_eq!(snap.decodes, 1);

    engine.recode(&pieces[..2]).unwrap();
    let snap = engine.metrics().snapshot();
    assert_eq!(snap.recodes, 1);
}

#[test]
fn decode_insufficient_pieces_error() {
    let mut engine = RlncEngine::new();
    let encoder = encoder_of(&test_data(512), 8);
    let pieces = encoder.encode_n(2);
    let piece_size = pieces[0].data.len();
    let result = engine.decode(8, piece_size, &pieces);
    assert!(matches!(result, Err(RlncError::InsufficientPieces { .. })));
}

// Errors

#[test]
fn insufficient_pieces_display() {
    let e = RlncError::InsufficientPieces { have: 20, need: 32 };
    assert_eq!(e.message(), "insufficient pieces: have 20, need 32");
}

#[test]
fn linearly_dependent_display() {
    let e = RlncError::LinearlyDependent;
    assert!(e.message().contains("linearly dependent"));
}

#[test]
fn decode_failed_display() {
    let e = RlncError::DecodeFailed("singular matrix".into());
    assert!(e.message().contains("singular matrix"));
}

#[test]
fn invalid_piece_size_display() {
    let e = RlncError::InvalidPieceSize { expected: 1024, got: 512 };
    assert_eq!(e.message(), "invalid piece size: expected 1024 bytes, got 512");
}

#[test]
fn semaphore_error_display() {
    let e = RlncError::SemaphoreError;
    assert!(e.message().contains("semaphore"));
}

#[test]
fn coding_vector_mismatch_display() {
    let e = RlncError::CodingVectorLengthMismatch { expected: 32, got: 16 };
    assert!(e.message().contains("16"));
}

#[test]
fn insufficient_recode_inputs_display() {
    let e = RlncError::InsufficientRecodeInputs { got: 1 };
    assert!(e.message().contains("1"));
}

#[test]
fn mismatched_cids_display() {
    let e = RlncError::MismatchedCids;
    assert!(e.message().contains("CID"));
}

// Several nodes

#[test]
fn rlnc_distribute_across_nodes_and_decode() {
    let original_data: Vec<u8> = (0..4096).map(|i| (i % 251) as u8).collect();
    let k = 8u32;

    let encoder = encoder_of(&original_data, k);
    let all_pieces = encoder.encode_n(encoder.target_pieces() as usize);
    let piece_size = encoder.piece_size();

    let mut node_stores: Vec<Vec<CodedPiece>> = vec![Vec::new(); 3];
    for (i, piece) in all_pieces.iter().enumerate() {
        node_stores[i % 3].push(piece.clone());
    }

    let mut decoder = RlncDecoder::new(k, piece_size);
    for store in &node_stores {
        for piece in store {
            match decoder.add_piece(piece) {
                Ok(_) => {}
                Err(e) => panic!("add_piece error: {:?}", e),
            }
            if decoder.is_decodable() {
                break;
            }
        }
        if decoder.is_decodable() {
            break;
        }
    }

    assert!(decoder.is_decodable(), "should decode from 3 nodes");
    let recovered = decoder.decode().expect("decode failed");
    assert_eq!(&recovered[..original_data.len()], original_data.as_slice());
}

#[test]
fn rlnc_recode_at_intermediate_node() {
    let data: Vec<u8> = (0..2048).map(|i| (i % 173) as u8).collect();
    let k = 8u32;

    let encoder = encoder_of(&data, k);
    let pieces = encoder.encode_n(encoder.target_pieces() as usize);
    let piece_size = encoder.piece_size();

    let mut recoded_pieces: Vec<CodedPiece> = Vec::new();
    for chunk in pieces[..6].chunks(2) {
        if chunk.len() == 2 {
            let recoded = RlncRecoder::recode(chunk).expect("recode");
            assert!(recoded.verify_piece_id(), "recoded piece_id should verify");
            recoded_pieces.push(recoded);
        }
    }

    let mut decoder = RlncDecoder::new(k, piece_size);
    for piece in &recoded_pieces {
        let _ = decoder.add_piece(piece);
    }
    for piece in &pieces[6..] {
        let _ = decoder.add_piece(piece);
        if decoder.is_decodable() {
            break;
        }
    }

    assert!(decoder.is_decodable(), "should decode with mixed pieces");
    let recovered = decoder.decode().expect("decode");
    assert_eq!(&recovered[..data.len()], data.as_slice());
}

#[test]
fn content_store_and_retrieve_by_cid() {
    let mut store: HashMap<Cid, Vec<CodedPiece>> = HashMap::new();

    let data1 = b"Hello from Node A";
    let data2: Vec<u8> = (0..1024).map(|i| (i % 251) as u8).collect();

    for data in [&data1[..], &data2[..]] {
        let encoder = encoder_of(data, 4);
        let pieces = encoder.encode_n(encoder.target_pieces() as usize);
        let cid = *encoder.cid();
        store.insert(cid, pieces);
    }

    for data in [&data1[..], &data2[..]] {
        let cid = Cid::from_data(data);
        let pieces = store.get(&cid).expect("CID not found");
        let mut decoder = RlncDecoder::new(4, pieces[0].data.len());
        for piece in pieces {
            let _ = decoder.add_piece(piece);
            if decoder.is_decodable() {
                break;
            }
        }
        let recovered = decoder.decode().expect("decode");
        assert_eq!(&recovered[..data.len()], data);
    }
}

#[test]
fn full_pipeline_encode_sign_transmit_verify_decode() {
    let original = b"The Craftec P2P network is operational!";
    let k = 4u32;

    let encoder = encoder_of(original, k);
    let pieces = encoder.encode_n(encoder.target_pieces() as usize);
    let cid = *encoder.cid();
    let kp_a = KeyStore::generate("a".to_string());
    let manifest = format!("write:cid={},pieces={}", cid.to_hex(), pieces.len());
    let sig = kp_a.sign(manifest.as_bytes());

    let response = WireMessage::PieceResponse { pieces: pieces.clone(), request_id: 0 };
    let stored_pieces = match response {
        WireMessage::PieceResponse { pieces, .. } => pieces,
        _ => panic!("expected PieceResponse"),
    };

    for piece in &stored_pieces {
        assert!(piece.verify_piece_id(), "piece failed verification");
    }

    assert!(
        verify_signature(manifest.as_bytes(), &sig, &kp_a.node_id()),
        "sig should verify"
    );

    let mut decoder = RlncDecoder::new(k, encoder.piece_size());
    for piece in &stored_pieces {
        let _ = decoder.add_piece(piece);
        if decoder.is_decodable() {
            break;
        }
    }

    let recovered = decoder.decode().expect("decode");
    assert_eq!(&recovered[..original.len()], original);
}

#[test]
fn rlnc_large_data_k32_standard_generation() {
    let data: Vec<u8> = (0..32_768).map(|i| (i % 251) as u8).collect();
    let k = 32u32;

    let encoder = encoder_of(&data, k);
    let pieces = encoder.encode_n(encoder.target_pieces() as usize);
    let piece_size = encoder.piece_size();

    let mut stores: Vec<Vec<&CodedPiece>> = vec![Vec::new(); 5];
    for (i, piece) in pieces.iter().enumerate() {
        stores[i % 5].push(piece);
    }

    let order = [2, 0, 4, 1, 3];
    let mut decoder = RlncDecoder::new(k, piece_size);

    for &node in &order {
        for piece in &stores[node] {
            let _ = decoder.add_piece(piece);
            if decoder.is_decodable() {
                break;
            }
        }
        if decoder.is_decodable() {
            break;
        }
    }

    assert!(decoder.is_decodable());
    let recovered = decoder.decode().expect("decode");
    assert_eq!(&recovered[..data.len()], data.as_slice());
}

#[test]
fn multiple_cids_independent_decode() {
    let datasets: Vec<Vec<u8>> = vec![
        (0..512).map(|i| (i % 251) as u8).collect(),
        vec![0xFF; 1024],
        b"short message".to_vec(),
    ];
    let k = 4u32;

    let mut store: HashMap<Cid, (Vec<CodedPiece>, usize, usize)> = HashMap::new();

    for data in &datasets {
        let encoder = encoder_of(data, k);
        let pieces = encoder.encode_n(encoder.target_pieces() as usize);
        let cid = *encoder.cid();
        let piece_size = encoder.piece_size();
        store.insert(cid, (pieces, piece_size, data.len()));
    }

    assert_eq!(store.len(), 3, "should have 3 distinct CIDs");

    for (cid, (pieces, piece_size, orig_len)) in &store {
        let mut decoder = RlncDecoder::new(k, *piece_size);
        for piece in pieces {
            assert_eq!(&piece.cid, cid, "piece CID should match");
            let _ = decoder.add_piece(piece);
            if decoder.is_decodable() {
                break;
            }
        }
        let recovered = decoder.decode().expect("decode");
        assert_eq!(recovered.len(), k as usize * piece_size);
        let orig_data = datasets.iter().find(|d| Cid::from_data(d) == *cid).unwrap();
        assert_eq!(&recovered[..*orig_len], orig_data.as_slice());
    }
}

#[test]
fn rlnc_twenty_cids_across_ten_nodes() {
    let k = 8u32;
    let num_nodes = 10;
    let num_cids = 20;

    let datasets: Vec<Vec<u8>> = (0..num_cids)
        .map(|i| (0..1024).map(|j| ((i * 37 + j) % 251) as u8).collect())
        .collect();

    for (cid_idx, data) in datasets.iter().enumerate() {
        let encoder = encoder_of(data, k);
        let pieces = encoder.encode_n(encoder.target_pieces() as usize);
        let piece_size = encoder.piece_size();

        let mut node_stores: Vec<Vec<CodedPiece>> = vec![Vec::new(); num_nodes];
        for (i, piece) in pieces.iter().enumerate() {
            node_stores[i % num_nodes].push(piece.clone());
        }

        let mut decoder = RlncDecoder::new(k, piece_size);
        let mut nodes_used = 0;

        for store in &node_stores {
            nodes_used += 1;
            for piece in store {
                let _ = decoder.add_piece(piece);
                if decoder.is_decodable() {
                    break;
                }
            }
            if decoder.is_decodable() {
                break;
            }
        }

        assert!(decoder.is_decodable(), "CID {} should be decodable", cid_idx);
        let recovered = decoder.decode().unwrap();
        assert_eq!(&recovered[..data.len()], data.as_slice(), "CID {} data mismatch", cid_idx);
        assert!(nodes_used <= num_nodes, "should not need more than {} nodes", num_nodes);
    }
}

#[test]
fn recoded_tag_is_the_combined_one() {
    let encoder = encoder_of(&[9, 8, 7, 6], 2);
    let a = encoder.encode_with(vec![1, 2]);
    let b = encoder.encode_with(vec![3, 4]);
    let key = hommac::HomMacKey::from_bytes(*encoder.cid().as_bytes());
    let tags = [a.hommac_tag, b.hommac_tag];
    let fresh = RlncRecoder::recode_with(&[a, b], &[5, 6]).unwrap();
    assert_eq!(fresh.hommac_tag, hommac::combine_tags(&key, &tags, &[5, 6]));
}
