use rateless_fec::codec::{decode, encode, encode_with};
use rateless_fec::gf::{gf_inv_exec, gf_mul_exec};
use rateless_fec::params::derive_parameters;
use rateless_fec::types::{EncodeResult, EncodingPacket, FecError};

fn sample(len: usize) -> Vec<u8> {
    let mut v = Vec::with_capacity(len);
    for i in 0..len {
        v.push(((i * 31 + 7) % 256) as u8);
    }
    v
}

fn subset(bundle: &EncodeResult, ids: &[u32]) -> EncodeResult {
    let mut packets = Vec::new();
    for &id in ids {
        let p = bundle
            .packets
            .iter()
            .find(|p| p.id == id)
            .expect("packet id present");
        packets.push(EncodingPacket {
            id: p.id,
            payload: p.payload.clone(),
        });
    }
    EncodeResult {
        parameters: bundle.parameters,
        packets,
    }
}

#[test]
fn round_trip_all_packets() {
    let data = sample(2500);
    let bundle = encode(&data).expect("encode");
    let back = decode(&bundle).expect("decode");
    assert_eq!(back, data);
}

#[test]
fn round_trip_single_byte() {
    let data = vec![42u8];
    let bundle = encode(&data).expect("encode");
    assert_eq!(bundle.parameters.source_symbol_count, 1);
    assert_eq!(bundle.parameters.padding_length, 1023);
    assert_eq!(bundle.packets.len(), 2);
    let back = decode(&bundle).expect("decode");
    assert_eq!(back, data);
}

#[test]
fn empty_input_rejected() {
    let data: Vec<u8> = Vec::new();
    let r = encode(&data);
    assert_eq!(r.err(), Some(FecError::InvalidInput));
}

#[test]
fn boundary_exact_multiple_has_no_padding() {
    let data = sample(2048);
    let bundle = encode(&data).expect("encode");
    assert_eq!(bundle.parameters.source_symbol_count, 2);
    assert_eq!(bundle.parameters.padding_length, 0);
    let back = decode(&bundle).expect("decode");
    assert_eq!(back, data);
}

#[test]
fn boundary_one_byte_over_pads_a_whole_symbol_minus_one() {
    let data = sample(2049);
    let bundle = encode(&data).expect("encode");
    assert_eq!(bundle.parameters.source_symbol_count, 3);
    assert_eq!(bundle.parameters.padding_length, 1023);
    let back = decode(&bundle).expect("decode");
    assert_eq!(back, data);
}

#[test]
fn scenario_2500_bytes() {
    let data = sample(2500);
    let bundle = encode(&data).expect("encode");
    assert_eq!(bundle.parameters.transfer_length, 2500);
    assert_eq!(bundle.parameters.symbol_size, 1024);
    assert_eq!(bundle.parameters.source_symbol_count, 3);
    assert_eq!(bundle.parameters.padding_length, 572);
    assert_eq!(bundle.packets.len(), 6);
    for (i, p) in bundle.packets.iter().enumerate() {
        assert_eq!(p.id, i as u32);
        assert_eq!(p.payload.len(), 1024);
    }
    // any three independent packets reconstruct the payload
    let back = decode(&subset(&bundle, &[0, 2, 4])).expect("decode from {0,2,4}");
    assert_eq!(back, data);
    // two packets cannot
    let r = decode(&subset(&bundle, &[0, 2]));
    assert_eq!(
        r.err(),
        Some(FecError::InsufficientSymbols {
            provided: 2,
            required: 3
        })
    );
}

#[test]
fn loss_tolerance_various_subsets() {
    let data = sample(2500);
    let bundle = encode(&data).expect("encode");
    for ids in [
        [1u32, 3, 5],
        [3, 4, 5],
        [0, 4, 5],
        [2, 3, 4],
        [0, 1, 5],
    ] {
        let back = decode(&subset(&bundle, &ids)).expect("decode from subset");
        assert_eq!(back, data);
    }
}

#[test]
fn order_independence() {
    let data = sample(2500);
    let bundle = encode(&data).expect("encode");
    let orders: [[u32; 3]; 4] = [[0, 2, 4], [4, 2, 0], [2, 0, 4], [4, 0, 2]];
    for ids in orders {
        let back = decode(&subset(&bundle, &ids)).expect("decode permutation");
        assert_eq!(back, data);
    }
    let reversed = subset(&bundle, &[5, 4, 3, 2, 1, 0]);
    assert_eq!(decode(&reversed).expect("decode reversed"), data);
}

#[test]
fn duplicate_tolerance() {
    let data = sample(2500);
    let bundle = encode(&data).expect("encode");
    let dup = subset(&bundle, &[0, 2, 4, 4, 0, 2]);
    assert_eq!(decode(&dup).expect("decode with duplicates"), data);
    // duplicates add no information: five packets over two identifiers
    // still fail, and the error reports the five packets supplied
    let r = decode(&subset(&bundle, &[0, 0, 2, 2, 0]));
    assert_eq!(
        r.err(),
        Some(FecError::InsufficientSymbols {
            provided: 5,
            required: 3
        })
    );
}

#[test]
fn all_systematic_present_always_decodes() {
    // whatever the order, duplicates and extra repair packets, a delivery
    // holding every systematic identifier reconstructs the payload
    let data = sample(2500);
    let bundle = encode(&data).expect("encode");
    for ids in [
        vec![4u32, 1, 0, 2, 5, 1],
        vec![2, 1, 0],
        vec![5, 2, 0, 1],
        vec![1, 1, 2, 2, 0, 0],
    ] {
        let back = decode(&subset(&bundle, &ids)).expect("decode with systematic run present");
        assert_eq!(back, data);
    }
}

#[test]
fn corrupt_parameters_rejected() {
    let data = sample(2500);
    let bundle = encode(&data).expect("encode");

    let mut wrong_count = subset(&bundle, &[0, 1, 2, 3, 4, 5]);
    wrong_count.parameters.source_symbol_count = 4;
    assert_eq!(decode(&wrong_count).err(), Some(FecError::CorruptParameters));

    let mut wrong_padding = subset(&bundle, &[0, 1, 2, 3, 4, 5]);
    wrong_padding.parameters.padding_length = 571;
    assert_eq!(decode(&wrong_padding).err(), Some(FecError::CorruptParameters));

    let mut zero_symbol = subset(&bundle, &[0, 1, 2, 3, 4, 5]);
    zero_symbol.parameters.symbol_size = 0;
    assert_eq!(decode(&zero_symbol).err(), Some(FecError::CorruptParameters));

    let mut short_payload = subset(&bundle, &[0, 1, 2, 3, 4, 5]);
    short_payload.packets[3].payload.pop();
    assert_eq!(decode(&short_payload).err(), Some(FecError::CorruptParameters));
}

#[test]
fn derive_parameters_exact_values() {
    let p = derive_parameters(2500, 1024).expect("derive");
    assert_eq!(p.transfer_length, 2500);
    assert_eq!(p.symbol_size, 1024);
    assert_eq!(p.source_symbol_count, 3);
    assert_eq!(p.padding_length, 572);

    let q = derive_parameters(4096, 1024).expect("derive");
    assert_eq!(q.source_symbol_count, 4);
    assert_eq!(q.padding_length, 0);

    assert_eq!(derive_parameters(0, 1024).err(), Some(FecError::InvalidInput));
}

#[test]
fn gf_arithmetic_known_values() {
    // 0x57 * 0x83 == 0xc1 under the 0x11b reduction polynomial
    assert_eq!(gf_mul_exec(0x57, 0x83), 0xc1);
    assert_eq!(gf_mul_exec(0x57, 0x13), 0xfe);
    for x in [1u8, 2, 3, 0x53, 0xca, 0xff] {
        assert_eq!(gf_mul_exec(x, 1), x);
        assert_eq!(gf_mul_exec(1, x), x);
        assert_eq!(gf_mul_exec(x, gf_inv_exec(x)), 1);
    }
    assert_eq!(gf_mul_exec(0, 0x7d), 0);
    assert_eq!(gf_mul_exec(0x7d, 0), 0);
}

#[test]
fn configurable_redundancy() {
    let data = sample(2500);

    // five repair packets: eight packets in all, ids 0..8
    let bundle = encode_with(&data, 5).expect("encode_with");
    assert_eq!(bundle.packets.len(), 8);
    for (i, p) in bundle.packets.iter().enumerate() {
        assert_eq!(p.id, i as u32);
    }
    let back = decode(&subset(&bundle, &[5, 6, 7])).expect("decode from repair packets");
    assert_eq!(back, data);

    // no repair packets: only the systematic run, which still decodes
    let bare = encode_with(&data, 0).expect("encode_with zero repair");
    assert_eq!(bare.packets.len(), 3);
    assert_eq!(decode(&bare).expect("decode systematic only"), data);
    let r = decode(&subset(&bare, &[0, 1]));
    assert_eq!(
        r.err(),
        Some(FecError::InsufficientSymbols {
            provided: 2,
            required: 3
        })
    );
}

#[test]
fn repair_packets_differ_from_source_symbols() {
    // a repair payload that merely copied its argument would decode wrongly
    // and would not be a combination: check it differs from every symbol
    let data = sample(2500);
    let bundle = encode(&data).expect("encode");
    let repair = &bundle.packets[4].payload;
    for sys in &bundle.packets[0..3] {
        assert_ne!(repair, &sys.payload);
    }
}
