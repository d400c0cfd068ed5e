use shake128::keccak::{rotate_left, State, RC, ROT};
use shake128::shake128;
use shake128::sponge::{absorb_words, byte_of, le_bytes, load_le, pad, squeeze_words, to_words};

fn digest(input: &[u8], len: u64) -> Vec<u8> {
    let mut buf = input.to_vec();
    shake128(&mut buf, len)
}

#[test]
fn abc_32_bytes() {
    assert_eq!(
        hex::encode(digest(b"abc", 32)),
        "5881092dd818bf5cf8a3ddb793fbcba74097d5c526a6d35f97b83351940f2cc8"
    );
}

#[test]
fn empty_input_16_bytes() {
    assert_eq!(hex::encode(digest(b"", 16)), "7f9c2ba4e88f827d616045507605853e");
}

#[test]
fn empty_input_32_bytes() {
    assert_eq!(
        hex::encode(digest(b"", 32)),
        "7f9c2ba4e88f827d616045507605853ed73b8093f6efbc88eb1a6eacfa66ef26"
    );
}

#[test]
fn two_block_input() {
    let input = vec![0xa3u8; 200];
    assert_eq!(
        hex::encode(digest(&input, 32)),
        "131ab8d2b594946b9c81333f9bb6e0ce75c3b93104fa3469d3917457385da037"
    );
}

#[test]
fn zero_length_output_is_empty() {
    assert_eq!(digest(b"abc", 0), Vec::<u8>::new());
    assert_eq!(digest(b"", 0), Vec::<u8>::new());
}

#[test]
fn output_has_requested_length() {
    for len in [0u64, 1, 7, 8, 9, 15, 16, 167, 168, 169, 335, 336, 337, 1000] {
        assert_eq!(digest(b"length", len).len() as u64, len);
    }
}

#[test]
fn same_input_same_output() {
    let input: Vec<u8> = (0..=255u8).collect();
    assert_eq!(digest(&input, 77), digest(&input, 77));
}

#[test]
fn shorter_output_is_prefix_of_longer() {
    let long = digest(b"prefix", 400);
    for len in [0usize, 1, 7, 8, 31, 168, 169, 336, 399] {
        assert_eq!(digest(b"prefix", len as u64), long[..len].to_vec());
    }
}

#[test]
fn output_crosses_block_boundary() {
    let long = digest(b"", 200);
    assert_eq!(hex::encode(&long[..16]), "7f9c2ba4e88f827d616045507605853e");
    assert_ne!(long[..32].to_vec(), long[168..200].to_vec());
}

#[test]
fn one_flipped_bit_changes_about_half_the_output() {
    let base: Vec<u8> = (0..64u8).collect();
    let reference = digest(&base, 64);
    for bit in [0usize, 9, 100, 511] {
        let mut flipped = base.clone();
        flipped[bit / 8] ^= 1 << (bit % 8);
        let other = digest(&flipped, 64);
        let differing: u32 = reference.iter().zip(other.iter()).map(|(a, b)| (a ^ b).count_ones()).sum();
        assert!(differing > 180 && differing < 332, "{} bits differ", differing);
    }
}

#[test]
fn shake128_leaves_input_as_it_was() {
    let mut buf = b"abc".to_vec();
    let first = shake128(&mut buf, 32);
    assert_eq!(buf, b"abc".to_vec());
    let second = shake128(&mut buf, 32);
    assert_eq!(buf, b"abc".to_vec());
    assert_eq!(first, second);
    assert_eq!(
        hex::encode(second),
        "5881092dd818bf5cf8a3ddb793fbcba74097d5c526a6d35f97b83351940f2cc8"
    );
}

#[test]
fn shake128_leaves_block_sized_input_as_it_was() {
    let mut buf = vec![0x55u8; 167];
    let first = shake128(&mut buf, 9);
    assert_eq!(buf, vec![0x55u8; 167]);
    assert_eq!(shake128(&mut buf, 9), first);
    let mut empty: Vec<u8> = Vec::new();
    let _ = shake128(&mut empty, 16);
    assert!(empty.is_empty());
}

#[test]
fn pad_empty_input() {
    let mut buf: Vec<u8> = Vec::new();
    pad(&mut buf);
    assert_eq!(buf.len(), 168);
    assert_eq!(buf[0], 0x1f);
    assert!(buf[1..167].iter().all(|b| *b == 0));
    assert_eq!(buf[167], 0x80);
}

#[test]
fn pad_one_byte_short_of_a_block() {
    let mut buf = vec![0x55u8; 167];
    pad(&mut buf);
    assert_eq!(buf.len(), 168);
    assert!(buf[..167].iter().all(|b| *b == 0x55));
    assert_eq!(buf[167], 0x9f);
}

#[test]
fn pad_full_block_adds_another() {
    let mut buf = vec![0x55u8; 168];
    pad(&mut buf);
    assert_eq!(buf.len(), 336);
    assert_eq!(buf[168], 0x1f);
    assert!(buf[169..335].iter().all(|b| *b == 0));
    assert_eq!(buf[335], 0x80);
}

#[test]
fn new_state_is_zero() {
    let s = State::new();
    assert_eq!(s.state, [[0u64; 5]; 5]);
}

#[test]
fn round_zero_on_zero_state_leaves_first_round_constant() {
    let mut s = State::new();
    s.round(0);
    assert_eq!(s.state[0][0], 0x0000000000000001);
    assert_eq!(s.state[0][0], RC[0]);
    for x in 0..5 {
        for y in 0..5 {
            if (x, y) != (0, 0) {
                assert_eq!(s.state[x][y], 0);
            }
        }
    }
}

#[test]
fn any_round_on_zero_state_leaves_its_round_constant() {
    for r in 0..24 {
        let mut s = State::new();
        s.round(r);
        let mut expected = [[0u64; 5]; 5];
        expected[0][0] = RC[r];
        assert_eq!(s.state, expected);
    }
}

#[test]
fn permutation_of_zero_state() {
    let mut s = State::new();
    s.kecccakf();
    assert_eq!(s.state[0][0], 0xF1258F7940E1DDE7);
    assert_eq!(s.state[1][0], 0x84D5CCF933C0478A);
}

#[test]
fn permutation_is_24_rounds_in_order() {
    let mut a = State::new();
    a.state[3][2] = 0x0123456789abcdef;
    let mut b = State { state: a.state };
    a.kecccakf();
    for r in 0..24 {
        b.round(r);
    }
    assert_eq!(a.state, b.state);
}

#[test]
fn round_is_its_four_steps() {
    let mut a = State::new();
    for x in 0..5 {
        for y in 0..5 {
            a.state[x][y] = 0x9e3779b97f4a7c15u64.wrapping_mul((x + 5 * y + 1) as u64);
        }
    }
    let mut b = State { state: a.state };
    a.round(5);
    b.theta();
    let grid = b.rho_pi();
    b.chi(&grid);
    b.iota(5);
    assert_eq!(a.state, b.state);
}

#[test]
fn theta_on_single_bit() {
    let mut s = State::new();
    s.state[0][0] = 1;
    s.theta();
    // column 0 has parity 1: column 1 gets it, column 4 gets it rotated by one
    for y in 0..5 {
        assert_eq!(s.state[1][y], 1);
        assert_eq!(s.state[4][y], 2);
        assert_eq!(s.state[2][y], 0);
        assert_eq!(s.state[3][y], 0);
    }
    assert_eq!(s.state[0][0], 1);
    assert_eq!(s.state[0][1], 0);
}

#[test]
fn rho_pi_moves_and_rotates_one_lane() {
    let mut s = State::new();
    s.state[1][2] = 1;
    let b = s.rho_pi();
    let mut expected = [[0u64; 5]; 5];
    // (1, 2) goes to (2, (2 + 6) % 5) = (2, 3), rotated by 10
    expected[2][3] = 1 << 10;
    assert_eq!(b, expected);
    assert_eq!(ROT[1][2], 10);
}

#[test]
fn chi_mixes_along_x() {
    let mut s = State::new();
    let mut b = [[0u64; 5]; 5];
    b[0][0] = 0b1100;
    b[1][0] = 0b1010;
    b[2][0] = 0b0110;
    s.chi(&b);
    assert_eq!(s.state[0][0], 0b1100 ^ (!0b1010u64 & 0b0110));
    assert_eq!(s.state[1][0], 0b1010 ^ (!0b0110u64 & 0));
    assert_eq!(s.state[3][0], 0b1100);
    assert_eq!(s.state[4][0], !0b1100u64 & 0b1010);
    assert_eq!(s.state[0][1], 0);
}

#[test]
fn iota_touches_only_first_lane() {
    let mut s = State::new();
    s.state[0][0] = 0xff;
    s.state[4][4] = 7;
    s.iota(1);
    assert_eq!(s.state[0][0], 0xff ^ 0x8082);
    assert_eq!(s.state[4][4], 7);
}

#[test]
fn rotate_left_matches_std() {
    let w = 0x8000_0000_0000_0001u64;
    assert_eq!(rotate_left(w, 0), w);
    assert_eq!(rotate_left(w, 1), 3);
    assert_eq!(rotate_left(w, 63), 0xC000_0000_0000_0000);
    for n in 0..64u8 {
        assert_eq!(rotate_left(0x0123456789abcdef, n), 0x0123456789abcdefu64.rotate_left(n as u32));
    }
}

#[test]
fn words_are_little_endian() {
    let bytes: Vec<u8> = vec![0x01, 0x02, 0x03, 0x04, 0x05, 0x06, 0x07, 0x08, 0x09];
    assert_eq!(load_le(&bytes, 0), 0x0807060504030201);
    assert_eq!(load_le(&bytes, 1), 0x0908070605040302);
    let w = 0x0807060504030201u64;
    for j in 0..8 {
        assert_eq!(byte_of(w, j), w.to_le_bytes()[j]);
    }
}

#[test]
fn to_words_drops_trailing_bytes() {
    let bytes: Vec<u8> = (1..=19u8).collect();
    assert_eq!(to_words(&bytes), vec![0x0807060504030201, 0x100f0e0d0c0b0a09]);
    assert_eq!(to_words(&Vec::new()), Vec::<u64>::new());
}

#[test]
fn absorb_words_leaves_capacity_untouched() {
    let p: Vec<u64> = (1..=42u64).collect();
    let mut s = State::new();
    absorb_words(&mut s, &p, 1);
    for x in 0..5 {
        for y in 0..5 {
            let k = x + 5 * y;
            if k < 21 {
                assert_eq!(s.state[x][y], 22 + k as u64);
            } else {
                assert_eq!(s.state[x][y], 0);
            }
        }
    }
    absorb_words(&mut s, &p, 1);
    assert_eq!(s.state, [[0u64; 5]; 5]);
}

#[test]
fn squeeze_words_reads_first_21_lanes_in_order() {
    let mut s = State::new();
    for x in 0..5 {
        for y in 0..5 {
            s.state[x][y] = (x + 5 * y) as u64;
        }
    }
    let mut z = vec![99u64];
    squeeze_words(&s, &mut z);
    let mut expected = vec![99u64];
    expected.extend(0..21u64);
    assert_eq!(z, expected);
}

#[test]
fn le_bytes_matches_std() {
    assert_eq!(le_bytes(0x0123456789abcdef), vec![0xef, 0xcd, 0xab, 0x89, 0x67, 0x45, 0x23, 0x01]);
    assert_eq!(le_bytes(0), vec![0u8; 8]);
    let w = 0xfedcba9876543210u64;
    assert_eq!(le_bytes(w), w.to_le_bytes().to_vec());
    assert_eq!(load_le(&le_bytes(w), 0), w);
}

#[test]
fn text_of_zero_state() {
    let s = State::new();
    let line = "0000000000000000 0000000000000000\n";
    let mut expected = String::new();
    for _ in 0..12 {
        expected.push_str(line);
    }
    expected.push_str("0000000000000000 \n");
    assert_eq!(s.to_text(), expected);
}

#[test]
fn text_shows_lanes_row_by_row_in_little_endian_hex() {
    let mut s = State::new();
    s.state[0][0] = 0x0123456789abcdef;
    s.state[1][0] = 0x00000000000000ff;
    s.state[0][1] = 0x1000000000000000;
    let text = s.to_text();
    let lines: Vec<&str> = text.split('\n').collect();
    assert_eq!(lines.len(), 14);
    assert_eq!(lines[0], "efcdab8967452301 ff00000000000000");
    // lane (0, 1) is the sixth cell: the second on the third line
    assert_eq!(lines[2], "0000000000000000 0000000000000010");
    assert_eq!(lines[12], "0000000000000000 ");
    assert_eq!(lines[13], "");
    assert_eq!(text.len(), 25 * 17 + 1);
}
