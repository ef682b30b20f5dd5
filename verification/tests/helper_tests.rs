use mlkem::field::FieldElement as FF;
use mlkem::helper::{
    base_case_multiply, compress, decompress, div_and_round, g, h, j, prf, random_bytes, to_bytes,
    to_cells, xof,
};

fn hex(bytes: &[u8]) -> String {
    let mut s = String::new();
    for b in bytes {
        s.push_str(&format!("{:02x}", b));
    }
    s
}

#[test]
fn compress_exact_values() {
    assert_eq!(compress(vec![832, 833, 2496, 2497], 1), vec![0, 1, 1, 0]);
    assert_eq!(compress(vec![3328], 4), vec![0]);
    assert_eq!(compress(vec![1664], 10), vec![512]);
    assert_eq!(compress(vec![1], 11), vec![1]);
    assert_eq!(compress(vec![0], 7), vec![0]);
}

#[test]
fn decompress_exact_values() {
    assert_eq!(decompress(vec![0, 1], 1), vec![0, 1665]);
    assert_eq!(decompress(vec![15], 4), vec![3121]);
    assert_eq!(decompress(vec![512, 1], 10), vec![1665, 3]);
    assert_eq!(decompress(vec![2047], 11), vec![3327]);
}

#[test]
fn decompress_after_compress_is_close() {
    for d in 1..=11u8 {
        let bound: i32 = (3329 + (1 << (d as i32 + 1)) - 1) / (1 << (d as i32 + 1));
        let xs: Vec<u16> = (0..3329).collect();
        let back = decompress(compress(xs.clone(), d), d);
        for (x, y) in xs.iter().zip(back.iter()) {
            let diff = (*x as i32 - *y as i32).rem_euclid(3329);
            let dist = diff.min(3329 - diff);
            assert!(dist <= bound, "d = {}, x = {}, y = {}", d, x, y);
        }
    }
}

#[test]
fn compress_after_decompress_is_identity() {
    for d in 1..=11u8 {
        let ys: Vec<u16> = (0..(1u16 << d)).collect();
        assert_eq!(compress(decompress(ys.clone(), d), d), ys);
    }
}

#[test]
fn div_and_round_rounds_half_up() {
    assert_eq!(div_and_round(7, 2), 4);
    assert_eq!(div_and_round(6, 4), 2);
    assert_eq!(div_and_round(5, 4), 1);
    assert_eq!(div_and_round(0, 3329), 0);
}

#[test]
fn base_case_multiply_exact() {
    let (c0, c1) = base_case_multiply(FF(2), FF(3), FF(5), FF(7), FF(17));
    assert_eq!(c0, FF((2 * 5 + 3 * 7 * 17) % 3329));
    assert_eq!(c1, FF(2 * 7 + 3 * 5));
}

#[test]
fn h_of_empty_string() {
    assert_eq!(
        hex(&h(Vec::new())),
        "a7ffc6f8bf1ed76651c14756a061d662f580ff4de43b49fa82d80a4b80f8434a"
    );
}

#[test]
fn g_of_empty_string() {
    let (a, b) = g(Vec::new());
    assert_eq!(hex(&a), "a69f73cca23a9ac5c8b567dc185a756e97c982164fe25859e0d1dcc1475c80a6");
    assert_eq!(hex(&b), "15b2123af1f5f94c11e3e9402c3ac558f500199d95b6d3e301758586281dcd26");
}

#[test]
fn j_of_empty_string() {
    assert_eq!(
        hex(&j(Vec::new())),
        "46b9dd2b0ba88d13233b3feb743eeb243fcd52ea62b81b82b50c27646ed5762f"
    );
}

#[test]
fn prf_appends_the_counter_and_sizes_by_eta() {
    let out = prf(2, vec![0u8; 32], 0);
    assert_eq!(out.len(), 128);
    assert!(out.iter().all(|x| *x < 256));
    let longer = prf(3, vec![0u8; 32], 0);
    assert_eq!(longer.len(), 192);
    assert_eq!(&longer[..128], &out[..]);
    assert_ne!(prf(2, vec![0u8; 32], 1), out);
    let mut input = vec![0u8; 32];
    input.push(0);
    assert_eq!(to_bytes(&prf(2, vec![0u8; 32], 0))[..32], j(input)[..]);
}

#[test]
fn xof_of_empty_string_is_read_incrementally() {
    let mut reader = xof(Vec::new());
    let first = reader.squeeze(3);
    let second = reader.squeeze(13);
    let third = reader.squeeze(16);
    assert_eq!(hex(&first), "7f9c2b");
    assert_eq!(hex(&second), "a4e88f827d616045507605853e");
    assert_eq!(hex(&third), "d73b8093f6efbc88eb1a6eacfa66ef26");
}

#[test]
fn xof_reads_past_the_first_buffer() {
    let mut whole = xof(vec![1, 2, 3]);
    let all = whole.squeeze(5000);
    let mut parts = xof(vec![1, 2, 3]);
    let mut joined: Vec<u8> = Vec::new();
    joined.extend(parts.squeeze(839));
    joined.extend(parts.squeeze(2));
    joined.extend(parts.squeeze(0));
    joined.extend(parts.squeeze(4159));
    assert_eq!(all, joined);
}

#[test]
fn random_bytes_has_requested_length() {
    assert_eq!(random_bytes(0).len(), 0);
    assert_eq!(random_bytes(32).len(), 32);
    assert_ne!(random_bytes(32), random_bytes(32));
}

#[test]
fn cells_and_bytes() {
    assert_eq!(to_cells(&vec![0, 255, 7]), vec![0u16, 255, 7]);
    assert_eq!(to_bytes(&vec![0, 255, 256, 0x1234]), vec![0u8, 255, 0, 0x34]);
}
