use order_stat::decode::{read_u32s, read_u32s_k};

#[test]
fn read_u32s_is_little_endian() {
    assert_eq!(read_u32s(&[1, 0, 0, 0]), vec![1]);
    assert_eq!(read_u32s(&[0, 1, 0, 0]), vec![256]);
    assert_eq!(read_u32s(&[0, 0, 1, 0]), vec![65536]);
    assert_eq!(read_u32s(&[0, 0, 0, 1]), vec![16777216]);
    assert_eq!(read_u32s(&[0x78, 0x56, 0x34, 0x12, 0xff, 0xff, 0xff, 0xff]), vec![0x12345678, u32::MAX]);
}

#[test]
fn read_u32s_ignores_what_is_left_over() {
    assert_eq!(read_u32s(&[]), Vec::<u32>::new());
    assert_eq!(read_u32s(&[1, 2, 3]), Vec::<u32>::new());
    assert_eq!(read_u32s(&[1, 0, 0, 0, 9]), vec![1]);
    assert_eq!(read_u32s(&[1, 0, 0, 0, 2, 0, 0, 0, 9, 9, 9]), vec![1, 2]);
}

#[test]
fn read_u32s_k_reads_position_then_values() {
    assert_eq!(read_u32s_k(&[1, 0, 5, 0, 0, 0, 6, 0, 0, 0]), Some((vec![5, 6], 1)));
    assert_eq!(read_u32s_k(&[0, 0, 5, 0, 0, 0, 9]), Some((vec![5], 0)));
}

#[test]
fn read_u32s_k_position_is_little_endian() {
    let mut data = vec![0x02, 0x01];
    for i in 0..259u32 {
        data.extend_from_slice(&[i as u8, (i >> 8) as u8, 0, 0]);
    }
    let (values, k) = read_u32s_k(&data).unwrap();
    assert_eq!(k, 258);
    assert_eq!(values.len(), 259);
    assert_eq!(values[258], 258);
}

#[test]
fn read_u32s_k_refuses_short_input() {
    assert_eq!(read_u32s_k(&[]), None);
    assert_eq!(read_u32s_k(&[0]), None);
}

#[test]
fn read_u32s_k_refuses_position_out_of_range() {
    assert_eq!(read_u32s_k(&[0, 0]), None);
    assert_eq!(read_u32s_k(&[0, 0, 1, 2, 3]), None);
    assert_eq!(read_u32s_k(&[1, 0, 5, 0, 0, 0]), None);
    assert_eq!(read_u32s_k(&[0, 1, 5, 0, 0, 0]), None);
}
