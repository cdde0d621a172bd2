use coinjoin_analyzer::blockchain::parse_block;
use coinjoin_analyzer::blockchain::parse_compact;
use coinjoin_analyzer::blockchain::parse_transaction_output;
use coinjoin_analyzer::blockchain::reverse_hash;

#[test]
fn test_reverse_hash_swaps_outer_bytes() {
    let mut hash: [u8; 32] = [0; 32];
    for i in 0..32 {
        hash[i] = i as u8;
    }
    let r = reverse_hash(&hash);
    assert_eq!(r[0], 31);
    assert_eq!(r[1], 30);
    assert_eq!(r[14], 17);
    // the middle pair stays zeroed
    assert_eq!(r[15], 0);
    assert_eq!(r[16], 0);
    assert_eq!(r[17], 14);
    assert_eq!(r[31], 0);
}

#[test]
fn test_parse_compact() {
    assert_eq!(parse_compact(&[0x05], 0), Some((5, 1)));
    assert_eq!(parse_compact(&[0xfc], 0), Some((0xfc, 1)));
    assert_eq!(parse_compact(&[0xfd, 0x01, 0x02], 0), Some((0x0201, 3)));
    assert_eq!(
        parse_compact(&[0xfe, 0x01, 0x02, 0x03, 0x04], 0),
        Some((0x04030201, 5))
    );
    assert_eq!(
        parse_compact(
            &[0xff, 0x01, 0x02, 0x03, 0x04, 0x05, 0x06, 0x07, 0x08],
            0
        ),
        Some((0x0807060504030201, 9))
    );
    assert_eq!(parse_compact(&[0xfd, 0x01], 0), None);
    assert_eq!(parse_compact(&[], 0), None);
}

#[test]
fn test_parse_transaction_output() {
    // value 600 little endian, a 3-byte script
    let mut data: Vec<u8> = vec![0x58, 0x02, 0, 0, 0, 0, 0, 0];
    data.push(3);
    data.push(0xaa);
    data.push(0xbb);
    data.push(0xcc);
    let parsed = parse_transaction_output(data.as_slice(), 0);
    assert!(parsed.is_some());
    let (output, end) = parsed.unwrap();
    assert_eq!(output.value, 600);
    assert_eq!(output.pk_script, vec![0xaa, 0xbb, 0xcc]);
    assert_eq!(end, 12);
}

#[test]
fn test_parse_block_with_one_transaction() {
    let mut data: Vec<u8> = Vec::new();
    // header: version 2, two hashes, time, bits, nonce
    data.extend_from_slice(&[2, 0, 0, 0]);
    for i in 0..32 {
        data.push(i as u8);
    }
    for i in 0..32 {
        data.push((i + 1) as u8);
    }
    data.extend_from_slice(&[9, 0, 0, 0]);
    data.extend_from_slice(&[7, 0, 0, 0]);
    data.extend_from_slice(&[5, 0, 0, 0]);
    // one transaction
    data.push(1);
    // version 1, no inputs, one output of value 1500 with empty script,
    // lock time 77
    data.extend_from_slice(&[1, 0, 0, 0]);
    data.push(0);
    data.push(1);
    data.extend_from_slice(&[0xdc, 0x05, 0, 0, 0, 0, 0, 0]);
    data.push(0);
    data.extend_from_slice(&[77, 0, 0, 0]);

    let parsed = parse_block(data.as_slice(), 0);
    assert!(parsed.is_some());
    let (block, end) = parsed.unwrap();
    assert_eq!(end, data.len());
    assert_eq!(block.header.version, 2);
    assert_eq!(block.header.time, 9);
    assert_eq!(block.header.n_bits, 7);
    assert_eq!(block.header.nonce, 5);
    assert_eq!(block.transactions.len(), 1);
    assert_eq!(block.transactions[0].version, 1);
    assert_eq!(block.transactions[0].inputs.len(), 0);
    assert_eq!(block.transactions[0].outputs.len(), 1);
    assert_eq!(block.transactions[0].outputs[0].value, 1500);
    assert_eq!(block.transactions[0].lock_time, 77);
}
