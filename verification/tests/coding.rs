use integer_encoding::{FixedInt, VarInt};
use lsmkv::util::coding::{
    decode_fixed_32, decode_fixed_64, encode_fixed_32, encode_fixed_64, extract_length_prefixed_slice,
    get_fixed_32, get_fixed_64, get_length_prefixed_slice, get_varint_32, get_varint_32_prefix_ptr,
    get_varint_64, put_fixed_32, put_fixed_64, put_length_prefixed_slice, put_varint_32,
    put_varint_64, varint_length, MAX_VARINT_LEN_U32, MAX_VARINT_LEN_U64,
};

#[test]
fn test_encode() {
    println!("{:?}", 226u64.encode_fixed_light());
    println!("{:?}", 0u32.encode_fixed_vec());
    println!("{:?}", 123456u32.encode_var_vec());
    println!("{:?}", 123456u64.encode_var_vec());
}

#[test]
fn test_decode() {
    let a = u32::decode_fixed_vec(&vec![0, 0, 0, 0]);
    println!("{}", a);
    assert_eq!(a, 0);
}

#[test]
fn test_encode_fixed_32() {
    let mut tests: Vec<(u32, Vec<u8>, Vec<u8>)> = vec![
        (0u32, vec![0; 4], vec![0, 0, 0, 0]),
        (1u32, vec![0; 4], vec![1, 0, 0, 0]),
        (255u32, vec![0; 4], vec![255, 0, 0, 0]),
        (256u32, vec![0; 4], vec![0, 1, 0, 0]),
        (512u32, vec![0; 4], vec![0, 2, 0, 0]),
        (u32::max_value(), vec![0; 4], vec![255, 255, 255, 255]),
        (u32::max_value(), vec![0; 6], vec![255, 255, 255, 255, 0, 0]),
    ];
    for (input, mut dst, expect) in tests.drain(..) {
        encode_fixed_32(dst.as_mut_slice(), input);
        assert_eq!(dst.len(), expect.len());
        for (n, m) in dst.iter().zip(expect) {
            assert_eq!(*n, m);
        }
    }
}

#[test]
fn test_decode_fixed_32() {
    let mut tests: Vec<(Vec<u8>, u32)> = vec![
        (vec![0], 0u32),
        (vec![1, 0], 1u32),
        (vec![1, 1, 0, 0], 257u32),
        (vec![0, 0, 0, 0], 0u32),
        (vec![1, 0, 0, 0], 1u32),
        (vec![255, 0, 0, 0], 255u32),
        (vec![0, 1, 0, 0], 256u32),
        (vec![0, 1], 256u32),
        (vec![0, 2, 0, 0], 512u32),
        (vec![255, 255, 255, 255], u32::max_value()),
        (vec![255, 255, 255, 255, 0, 0], u32::max_value()),
        (vec![255, 255, 255, 255, 1, 0], u32::max_value()),
    ];
    for (src, expect) in tests.drain(..) {
        let result = decode_fixed_32(src.as_slice());
        assert_eq!(result, expect);
    }
}

#[test]
fn test_encode_fixed_64() {
    let mut tests: Vec<(u64, Vec<u8>, Vec<u8>)> = vec![
        (0u64, vec![0; 8], vec![0; 8]),
        (1u64, vec![0; 8], vec![1, 0, 0, 0, 0, 0, 0, 0]),
        (255u64, vec![0; 8], vec![255, 0, 0, 0, 0, 0, 0, 0]),
        (256u64, vec![0; 8], vec![0, 1, 0, 0, 0, 0, 0, 0]),
        (512u64, vec![0; 8], vec![0, 2, 0, 0, 0, 0, 0, 0]),
        (
            u64::max_value(),
            vec![0; 8],
            vec![255, 255, 255, 255, 255, 255, 255, 255],
        ),
        (
            u64::max_value(),
            vec![0; 10],
            vec![255, 255, 255, 255, 255, 255, 255, 255, 0, 0],
        ),
    ];
    for (input, mut dst, expect) in tests.drain(..) {
        encode_fixed_64(dst.as_mut_slice(), input);
        assert_eq!(dst.len(), expect.len());
        for (n, m) in dst.iter().zip(expect) {
            assert_eq!(*n, m);
        }
    }
}

#[test]
fn test_decode_fixed_64() {
    let mut tests: Vec<(Vec<u8>, u64)> = vec![
        (vec![], 0u64),
        (vec![0], 0u64),
        (vec![0; 8], 0u64),
        (vec![1, 0], 1u64),
        (vec![1, 1], 257u64),
        (vec![1, 0, 0, 0, 0, 0, 0, 0], 1u64),
        (vec![255, 0, 0, 0, 0, 0, 0, 0], 255u64),
        (vec![0, 1, 0, 0, 0, 0, 0, 0], 256u64),
        (vec![0, 1], 256u64),
        (vec![0, 2, 0, 0, 0, 0, 0, 0], 512u64),
        (
            vec![255, 255, 255, 255, 255, 255, 255, 255],
            u64::max_value(),
        ),
        (
            vec![255, 255, 255, 255, 255, 255, 255, 255, 0, 0],
            u64::max_value(),
        ),
        (
            vec![255, 255, 255, 255, 255, 255, 255, 255, 1, 0],
            u64::max_value(),
        ),
    ];
    for (src, expect) in tests.drain(..) {
        let result = decode_fixed_64(src.as_slice());
        assert_eq!(result, expect);
    }
}

#[test]
fn test_put_varint_64() {
    let tests = vec![
        (0u64, vec![0]),
        (100u64, vec![0b110_0100]),
        (129u64, vec![0b1000_0001, 0b1]),
        (258u64, vec![0b1000_0010, 0b10]),
        (
            58962304u64,
            vec![0b1000_0000, 0b1110_0011, 0b1000_1110, 0b1_1100],
        ),
    ];
    for (input, results) in tests {
        let mut buf: Vec<u8> = Vec::with_capacity(MAX_VARINT_LEN_U64);
        put_varint_64(&mut buf, input);
        assert_eq!(buf.len(), results.len());
        for (i, b) in buf.iter().enumerate() {
            assert_eq!(*b, results[i]);
        }
    }
}

#[test]
fn test_read_varint_64() {
    let mut test_data = vec![
        0,
        0b110_0100,
        0b1000_0001,
        0b1,
        0b1000_0010,
        0b10,
        0b1000_0000,
        0b1110_0011,
        0b1000_1110,
        0b1_1100,
        0b1100_1110,
        0b1000_0001,
        0b1011_0101,
        0b1101_1001,
        0b1111_0110,
        0b1010_1100,
        0b1100_1110,
        0b1000_0001,
        0b1011_0101,
        0b1101_1001,
        0b1111_0110,
        0b1010_1100,
    ];
    let expects = vec![
        Some((0u64, 1)),
        Some((100u64, 1)),
        Some((129u64, 2)),
        Some((258u64, 2)),
        Some((58962304u64, 4)),
        None,
    ];

    let mut idx = 0;
    while !test_data.is_empty() {
        assert_eq!(
            get_varint_64(test_data.as_slice()),
            u64::decode_var(test_data.as_slice())
        );
        match u64::decode_var(&test_data.as_slice()) {
            Some((i, n)) => {
                assert_eq!(Some((i, n)), expects[idx]);
                test_data.drain(0..n);
            }
            None => {
                assert_eq!(None, expects[idx]);
                test_data.drain(..);
            }
        }
        idx += 1;
    }
}

#[test]
fn test_put_and_get_varint() {
    let mut buf = vec![];
    let mut numbers = vec![];
    let n = 100;
    for _ in 0..n {
        let r = rand::random::<u64>();
        put_varint_64(&mut buf, r);
        numbers.push(r);
    }
    println!("{:?}", numbers);
    let mut start = 0;
    for i in 0..n {
        let decoded = get_varint_64(&buf.as_slice()[start..]);
        assert!(decoded.is_some());
        if let Some((res, n)) = decoded {
            assert_eq!(numbers[i], res);
            start += n
        }
    }
    assert_eq!(start, buf.len());
}

#[test]
fn test_get_varint_32_prefix_ptr() {
    let tests: Vec<Vec<u8>> = vec![vec![1], vec![1, 2, 3, 4, 5], vec![0; 100], vec![0; 256]];
    let mut encoded = vec![];
    for v in tests {
        let mut buf = vec![];
        put_length_prefixed_slice(&mut buf, v.as_slice());
        encoded.push(buf.to_owned());
    }
    let results = vec![
        Some((1u32, 1usize)),
        Some((5, 1)),
        Some((100, 1)),
        Some((256, 2)),
    ];
    for (i, v) in encoded.iter().enumerate() {
        let a = get_varint_32_prefix_ptr(0, 0, v);
        assert_eq!(a, results[i]);
    }
}

#[test]
fn test_put_and_get_prefixed_slice() {
    let mut encoded: Vec<Vec<u8>> = vec![];
    let tests: Vec<Vec<u8>> = vec![vec![1], vec![1, 2, 3, 4, 5], vec![0; 100]];
    for input in tests.clone() {
        let mut buf = vec![];
        put_length_prefixed_slice(&mut buf, &input);

        encoded.push(buf.to_owned())
    }

    let mut decoded = vec![];
    for s in encoded {
        if let Some(res) = get_length_prefixed_slice(&s) {
            println!("res: {:?}", res);
            decoded.push(res.to_owned());
        } else {
            break;
        }
    }
    assert_eq!(tests.len(), decoded.len());
    for (get, want) in decoded.into_iter().zip(tests.into_iter()) {
        assert_eq!(get.len(), want.len());
        for (getv, wantv) in get.iter().zip(want.iter()) {
            assert_eq!(*getv, *wantv)
        }
    }
}

#[test]
fn test_fixed_width_is_little_endian() {
    let mut buf = vec![9u8];
    put_fixed_32(&mut buf, 0x0403_0201);
    assert_eq!(buf, vec![9, 1, 2, 3, 4]);
    let mut buf = vec![];
    put_fixed_64(&mut buf, 0x0807_0605_0403_0201);
    assert_eq!(buf, vec![1, 2, 3, 4, 5, 6, 7, 8]);
    assert_eq!(get_fixed_32(&[1, 2, 3, 4]), 0x0403_0201);
    assert_eq!(get_fixed_64(&[1, 2, 3, 4, 5, 6, 7, 8]), 0x0807_0605_0403_0201);
}

#[test]
fn test_varint_32_values_and_lengths() {
    let cases: Vec<(u32, Vec<u8>)> = vec![
        (0, vec![0]),
        (127, vec![127]),
        (128, vec![0x80, 1]),
        (300, vec![0xac, 2]),
        (u32::MAX, vec![0xff, 0xff, 0xff, 0xff, 0x0f]),
    ];
    for (value, bytes) in cases {
        let mut buf = vec![];
        put_varint_32(&mut buf, value);
        assert_eq!(buf, bytes);
        assert_eq!(varint_length(value as usize), bytes.len());
        assert!(bytes.len() <= MAX_VARINT_LEN_U32);
        assert_eq!(get_varint_32(&buf), Some((value, bytes.len())));
    }
}

#[test]
fn test_varint_without_end_is_refused() {
    assert_eq!(get_varint_32(&[]), None);
    assert_eq!(get_varint_32(&[0x80, 0x80]), None);
    assert_eq!(get_varint_64(&[0xff; 11]), None);
    assert_eq!(get_varint_32_prefix_ptr(0, 0, &[0x80]), None);
}

#[test]
fn test_varint_32_keeps_low_bits_of_long_input() {
    // Six groups of seven bits: the value is reduced to 32 bits.
    let bytes = [0x81, 0x80, 0x80, 0x80, 0x80, 0x01];
    assert_eq!(get_varint_32(&bytes), Some((1, 6)));
}

#[test]
fn test_length_prefix_longer_than_data() {
    assert_eq!(get_length_prefixed_slice(&[5, 1, 2]), None);
    assert_eq!(get_length_prefixed_slice(&[2, 1, 2, 3]), Some(vec![1, 2]));
    assert_eq!(extract_length_prefixed_slice(&[2, 1, 2, 3]), &[1, 2]);
}
