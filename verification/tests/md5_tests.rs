use diffie_hellman::md5::{hash, validate_candiate, INITIAL_STATE, M0_DELTA};

#[test]
fn table_2_test_1() {
    let m0 = [
        0x2dd31d1, 0xc4eee6c5, 0x69a3d69, 0x5cf9af98, 0x87b5ca2f, 0xab7e4612, 0x3e580440,
        0x897ffbb8, 0x634ad55, 0x2b3f409, 0x8388e483, 0x5a417125, 0xe8255108, 0x9fc9cdf7,
        0xf2bd1dd9, 0x5b3c3780,
    ];
    let m1 = [
        0xd11d0b96, 0x9c7b41dc, 0xf497d8e4, 0xd555655a, 0xc79a7335, 0xcfdebf0, 0x66f12930,
        0x8fb109d1, 0x797f2775, 0xeb5cd530, 0xbaade822, 0x5c15cc79, 0xddcb74ed, 0x6dd3c55f,
        0xd80a9bb1, 0xe3a7cc35,
    ];
    let result = hash(&hash(&INITIAL_STATE, &m0), &m1);

    let m0_prim = [
        0x2dd31d1, 0xc4eee6c5, 0x69a3d69, 0x5cf9af98, 0x7b5ca2f, 0xab7e4612, 0x3e580440,
        0x897ffbb8, 0x634ad55, 0x2b3f409, 0x8388e483, 0x5a41f125, 0xe8255108, 0x9fc9cdf7,
        0x72bd1dd9, 0x5b3c3780,
    ];
    let m1_prim = [
        0xd11d0b96, 0x9c7b41dc, 0xf497d8e4, 0xd555655a, 0x479a7335, 0xcfdebf0, 0x66f12930,
        0x8fb109d1, 0x797f2775, 0xeb5cd530, 0xbaade822, 0x5c154c79, 0xddcb74ed, 0x6dd3c55f,
        0x580a9bb1, 0xe3a7cc35,
    ];
    let result_prim = hash(&hash(&INITIAL_STATE, &m0_prim), &m1_prim);

    assert_eq!(result, result_prim);
    assert_eq!(result, [0x9603161f, 0xa30f9dbf, 0x9f65ffbc, 0xf41fc7ef]);
}

#[test]
fn table_2_test_2() {
    let m0 = [
        0x2dd31d1, 0xc4eee6c5, 0x69a3d69, 0x5cf9af98, 0x87b5ca2f, 0xab7e4612, 0x3e580440,
        0x897ffbb8, 0x634ad55, 0x2b3f409, 0x8388e483, 0x5a417125, 0xe8255108, 0x9fc9cdf7,
        0xf2bd1dd9, 0x5b3c3780,
    ];
    let m1 = [
        0x313e82d8, 0x5b8f3456, 0xd4ac6dae, 0xc619c936, 0xb4e253dd, 0xfd03da87, 0x6633902,
        0xa0cd48d2, 0x42339fe9, 0xe87e570f, 0x70b654ce, 0x1e0da880, 0xbc2198c6, 0x9383a8b6,
        0x2b65f996, 0x702af76f,
    ];
    let result = hash(&hash(&INITIAL_STATE, &m0), &m1);

    let m0_prim = [
        0x2dd31d1, 0xc4eee6c5, 0x69a3d69, 0x5cf9af98, 0x7b5ca2f, 0xab7e4612, 0x3e580440,
        0x897ffbb8, 0x634ad55, 0x2b3f409, 0x8388e483, 0x5a41f125, 0xe8255108, 0x9fc9cdf7,
        0x72bd1dd9, 0x5b3c3780,
    ];
    let m1_prim = [
        0x313e82d8, 0x5b8f3456, 0xd4ac6dae, 0xc619c936, 0x34e253dd, 0xfd03da87, 0x6633902,
        0xa0cd48d2, 0x42339fe9, 0xe87e570f, 0x70b654ce, 0x1e0d2880, 0xbc2198c6, 0x9383a8b6,
        0xab65f996, 0x702af76f,
    ];
    let result_prim = hash(&hash(&INITIAL_STATE, &m0_prim), &m1_prim);

    assert_eq!(result, result_prim);
    assert_eq!(result, [0x8d5e7019, 0x61804e08, 0x715d6b58, 0x6324c015]);
}

#[test]
fn validate_candiate_test() {
    let m0 = [
        0x2dd31d1, 0xc4eee6c5, 0x69a3d69, 0x5cf9af98, 0x87b5ca2f, 0xab7e4612, 0x3e580440,
        0x897ffbb8, 0x634ad55, 0x2b3f409, 0x8388e483, 0x5a417125, 0xe8255108, 0x9fc9cdf7,
        0xf2bd1dd9, 0x5b3c3780,
    ];
    let m0_prim = [
        0x2dd31d1, 0xc4eee6c5, 0x69a3d69, 0x5cf9af98, 0x7b5ca2f, 0xab7e4612, 0x3e580440,
        0x897ffbb8, 0x634ad55, 0x2b3f409, 0x8388e483, 0x5a41f125, 0xe8255108, 0x9fc9cdf7,
        0x72bd1dd9, 0x5b3c3780,
    ];
    let m1_prim = [
        0x313e82d8, 0x5b8f3456, 0xd4ac6dae, 0xc619c936, 0x34e253dd, 0xfd03da87, 0x6633902,
        0xa0cd48d2, 0x42339fe9, 0xe87e570f, 0x70b654ce, 0x1e0d2880, 0xbc2198c6, 0x9383a8b6,
        0xab65f996, 0x702af76f,
    ];
    let m1 = [
        0x313e82d8, 0x5b8f3456, 0xd4ac6dae, 0xc619c936, 0xb4e253dd, 0xfd03da87, 0x6633902,
        0xa0cd48d2, 0x42339fe9, 0xe87e570f, 0x70b654ce, 0x1e0da880, 0xbc2198c6, 0x9383a8b6,
        0x2b65f996, 0x702af76f,
    ];

    let state_m0 = hash(&INITIAL_STATE, &m0);
    let state_m0_prim = hash(&INITIAL_STATE, &m0_prim);

    let modified_candidate = validate_candiate(&state_m0, m1).unwrap();
    assert_eq!(modified_candidate, m1);

    let mut candidate_prim = [0u32; 16];
    let mut i = 0;
    while i < 16 {
        candidate_prim[i] = m1[i] ^ M0_DELTA[i];
        i += 1;
    }
    assert_eq!(candidate_prim, m1_prim);

    assert_eq!(hash(&state_m0, &m1), hash(&state_m0_prim, &candidate_prim));
}

#[test]
fn validate_candiate_rejects() {
    let m0 = [
        0x2dd31d1, 0xc4eee6c5, 0x69a3d69, 0x5cf9af98, 0x87b5ca2f, 0xab7e4612, 0x3e580440,
        0x897ffbb8, 0x634ad55, 0x2b3f409, 0x8388e483, 0x5a417125, 0xe8255108, 0x9fc9cdf7,
        0xf2bd1dd9, 0x5b3c3780,
    ];
    let state_m0 = hash(&INITIAL_STATE, &m0);
    assert!(validate_candiate(&state_m0, [0u32; 16]).is_none());
}
