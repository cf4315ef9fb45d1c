use many_time_pad::combine::{combine_ciphers_remove_encryption_key, identify_non_whitespaces_indexes};
use many_time_pad::decode::{decode_ciphertexts, DecodeError};
use many_time_pad::order::sort_by_length;
use many_time_pad::recover_from_hex;
use many_time_pad::recovery::recover;

fn strings(v: &[&str]) -> Vec<String> {
    v.iter().map(|s| s.to_string()).collect()
}

#[test]
fn test_combination() {
    let c1 = vec![1, 1, 1, 1, 1];
    let c2 = vec![2, 2, 2, 2, 2];

    assert_eq!(
        vec![3, 3, 3, 3, 3],
        combine_ciphers_remove_encryption_key(&c1, &c2)
    );
}

#[test]
fn combine_truncates_to_shorter() {
    let a = vec![0xff, 0x0f, 0xf0, 0x12];
    let b = vec![0x0f, 0x0f];
    assert_eq!(combine_ciphers_remove_encryption_key(&a, &b), vec![0xf0, 0x00]);
    assert_eq!(combine_ciphers_remove_encryption_key(&b, &a), vec![0xf0, 0x00]);
    assert_eq!(combine_ciphers_remove_encryption_key(&a, &vec![]), Vec::<u8>::new());
}

#[test]
fn combine_is_commutative() {
    let a = vec![7, 200, 13, 99, 1];
    let b = vec![42, 3, 255];
    assert_eq!(
        combine_ciphers_remove_encryption_key(&a, &b),
        combine_ciphers_remove_encryption_key(&b, &a)
    );
    assert_eq!(combine_ciphers_remove_encryption_key(&a, &b), vec![45, 203, 242]);
}

#[test]
fn combine_with_itself_is_zero() {
    let a = vec![7, 200, 13, 99, 1];
    assert_eq!(combine_ciphers_remove_encryption_key(&a, &a), vec![0; 5]);
}

#[test]
fn detector_empty() {
    assert_eq!(identify_non_whitespaces_indexes(vec![]), Vec::<usize>::new());
}

#[test]
fn detector_threshold() {
    assert_eq!(identify_non_whitespaces_indexes(vec![0, 64, 65, 66]), vec![0, 1]);
    assert_eq!(identify_non_whitespaces_indexes(vec![90, 3, 255, 64, 65]), vec![1, 3]);
}

#[test]
fn identical_ciphertexts_only_disqualified_by_others() {
    let a = vec![5, 6, 7, 8];
    let combined = combine_ciphers_remove_encryption_key(&a, &a);
    assert_eq!(identify_non_whitespaces_indexes(combined), vec![0, 1, 2, 3]);
    let r = recover(&vec![a.clone(), a.clone(), vec![5, 200]]);
    assert_eq!(r.key, vec![68, 0, 70, 73]);
    assert_eq!(
        r.plaintexts,
        vec![vec![65, 0, 65, 65], vec![65, 0, 65, 65], vec![65, 0]]
    );
}

#[test]
fn zero_ciphertext_exposes_key() {
    let r = recover(&vec![vec![1, 100, 2], vec![0, 0, 0]]);
    assert_eq!(r.key, vec![65, 0, 65]);
    assert_eq!(r.plaintexts, vec![vec![64, 0, 67], vec![64, 0, 67]]);
}

#[test]
fn short_ciphertext_stays_within_its_length() {
    let r = recover(&vec![vec![10, 20, 30, 40, 50], vec![11, 21], vec![70, 21, 31]]);
    assert_eq!(r.key, vec![0, 84, 94, 0, 0]);
    assert_eq!(r.plaintexts, vec![vec![0, 64, 64, 0, 0], vec![0, 65], vec![0, 65, 64]]);
}

#[test]
fn single_and_empty_inputs_resolve_nothing() {
    let r = recover(&vec![vec![0x61, 0x29]]);
    assert_eq!(r.key, vec![0, 0]);
    assert_eq!(r.plaintexts, vec![vec![0, 0]]);
    let r = recover(&vec![]);
    assert!(r.key.is_empty());
    assert!(r.plaintexts.is_empty());
}

#[test]
fn recovery_is_deterministic() {
    let cs = vec![vec![10, 20, 30, 40, 50], vec![11, 21], vec![70, 21, 31], vec![0, 0, 0, 0]];
    let a = recover(&cs);
    let b = recover(&cs);
    assert_eq!(a.key, b.key);
    assert_eq!(a.plaintexts, b.plaintexts);
}

#[test]
fn decode_valid_records() {
    let r = decode_ciphertexts(&strings(&["00ff1A", "", "aB"])).unwrap();
    assert_eq!(r, vec![vec![0x00, 0xff, 0x1a], vec![], vec![0xab]]);
}

#[test]
fn decode_odd_length_fails() {
    assert_eq!(
        decode_ciphertexts(&strings(&["0011", "123", "zz"])),
        Err(DecodeError { index: 1 })
    );
}

#[test]
fn decode_invalid_digit_fails() {
    assert_eq!(decode_ciphertexts(&strings(&["66ag"])), Err(DecodeError { index: 0 }));
    assert_eq!(decode_ciphertexts(&strings(&["00", "éé"])), Err(DecodeError { index: 1 }));
}

#[test]
fn sort_is_longest_first_and_stable() {
    let cs = vec![vec![1], vec![2, 2], vec![3], vec![4, 4, 4], vec![5, 5]];
    assert_eq!(
        sort_by_length(&cs),
        vec![vec![4, 4, 4], vec![2, 2], vec![5, 5], vec![1], vec![3]]
    );
}

#[test]
fn recover_from_hex_orders_then_recovers() {
    let r = recover_from_hex(&strings(&["000000", "0164"])).unwrap();
    // "000000" is longest and goes first; "0164" resolves offset 0 last.
    assert_eq!(r.key, vec![64, 0, 0]);
    assert_eq!(r.plaintexts, vec![vec![64, 0, 0], vec![64, 0]]);
    assert_eq!(
        recover_from_hex(&strings(&["00", "0g"])).err(),
        Some(DecodeError { index: 1 })
    );
}

#[test]
fn recover_from_hex_on_fixed_records() {
    let records = strings(&[
        "160111433b00035f536110435a380402561240555c526e1c0e431300091e4f04451d1d490d1c49010d000a0a4510111100000d434202081f0755034f13031600030d0204040e",
        "050602061d07035f4e3553501400004c1e4f1f01451359540c5804110c1c47560a1415491b06454f0e45040816431b144f0f4900450d1501094c1b16550f0b4e151e03031b450b4e020c1a124f020a0a4d09071f16003a0e5011114501494e16551049021011114c291236520108541801174b03411e1d124554284e141a0a1804045241190d543c00075453020a044e134f540a174f1d080444084e01491a090b0a1b4103570740",
        "000000000000001a49320017071704185941034504524b1b1d40500a0352441f021b0708034e4d0008451c40450101064f071d1000100201015003061b0b444c00020b1a16470a4e051a4e114f1f410e08040554154f064f410c1c00180c0010000b0f5216060605165515520e09560e00064514411304094c1d0c411507001a1b45064f570b11480d001d4c134f060047541b185c",
        "0b07540c1d0d0b4800354f501d131309594150010011481a1b5f11090c0845124516121d0e0c411c030c45150a16541c0a0b0d43540c411b0956124f0609075513051816590026004c061c014502410d024506150545541c450110521a111758001d0607450d11091d00121d4f0541190b45491e02171a0d49020a534f",
        "031a5410000a075f5438001210110a011c5350080a0048540e431445081d521345111c041f0245174a0006040002001b01094914490f0d53014e570214021d00160d151c57420a0d03040b4550020e1e1f001d071a56110359420041000c0b06000507164506151f104514521b02000b0145411e05521c1852100a52411a0054180a1e49140c54071d5511560201491b0944111a011b14090c0e41",
        "0b4916060808001a542e0002101309050345500b00050d04005e030c071b4c1f111b161a4f01500a08490b0b451604520d0b1d1445060f531c48124f1305014c051f4c001100262d38490f0b4450061800004e001b451b1d594e45411d014e004801491b0b0602050d41041e0a4d53000d0c411c41111c184e130a0015014f03000c1148571d1c011c55034f12030d4e0b45150c5c",
        "011b0d131b060d4f5233451e161b001f59411c090a0548104f431f0b48115505111d17000e02000a1e430d0d0b04115e4f190017480c14074855040a071f4448001a050110001b014c1a07024e5014094d0a1c541052110e54074541100601014e101a5c",
        "0c06004316061b48002a4509065e45221654501c0a075f540c42190b165c",
        "00000000000000000000000000000000000000000000000000000000000000000000000000000000000000000000000000000000000000000000000000000000000000000000000000000000000000000000000000000000000000000000000000000000000000000000000000000000000000000000000000000000000000000000000000000000000000000000000000000000000000000000000000000000000000000000000000000000000000000000",
    ]);
    let r = recover_from_hex(&records).unwrap();
    assert_eq!(r.key.len(), 178);
    assert_eq!(&r.key[..12], &[77, 0, 0, 0, 87, 71, 90, 0, 0, 0, 0, 0]);
    let lens: Vec<usize> = r.plaintexts.iter().map(|p| p.len()).collect();
    assert_eq!(lens, vec![178, 168, 155, 149, 149, 125, 100, 70, 30]);
    assert_eq!(&r.plaintexts[0][..12], &[77, 0, 0, 0, 87, 71, 90, 0, 0, 0, 0, 0]);
    let again = recover_from_hex(&records).unwrap();
    assert_eq!(r.key, again.key);
    assert_eq!(r.plaintexts, again.plaintexts);
}
