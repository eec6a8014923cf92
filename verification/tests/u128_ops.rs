use optarith::{
    add_u128, divrem_u128, from_decstr_u128, msb_u128, mul_u128, shl_u128, shr_u128, sqrt_u128,
    sub_u128, to_decstr_u128,
};

const TEST_COUNT: usize = 20_000;

struct Rng {
    state: u64,
}

impl Rng {
    fn new() -> Rng {
        Rng {
            state: 0x243f_6a88_85a3_08d3,
        }
    }

    fn next_u64(&mut self) -> u64 {
        self.state = self.state.wrapping_add(0x9e37_79b9_7f4a_7c15);
        let mut z = self.state;
        z = (z ^ (z >> 30)).wrapping_mul(0xbf58_476d_1ce4_e5b9);
        z = (z ^ (z >> 27)).wrapping_mul(0x94d0_49bb_1331_11eb);
        z ^ (z >> 31)
    }

    fn next_u128(&mut self) -> u128 {
        ((self.next_u64() as u128) << 64) | (self.next_u64() as u128)
    }

    fn next_u32(&mut self) -> u32 {
        self.next_u64() as u32
    }
}

#[test]
fn msb_sanity() {
    let mut rng = Rng::new();
    for _ in 0..TEST_COUNT {
        let x = rng.next_u128();
        if x == 0 {
            continue;
        }
        let y = msb_u128(x);
        let z = (127 - x.leading_zeros()) as i32;
        assert_eq!(z, y);
    }
}

#[test]
fn shl_shr_sanity() {
    let mut rng = Rng::new();
    for _ in 0..TEST_COUNT {
        let x = rng.next_u128();
        let c = (rng.next_u32() & 127) as i32;

        let l = shl_u128(x, c);
        assert_eq!(l, x.wrapping_shl(c as u32));

        let r = shr_u128(x, c);
        assert_eq!(r, x >> (c as u32));
    }
}

#[test]
fn add_sub_mul_sanity() {
    let mut rng = Rng::new();
    for _ in 0..TEST_COUNT {
        let x = rng.next_u128() >> (rng.next_u32() % 126);
        let y = rng.next_u128() >> (rng.next_u32() % 126);

        assert_eq!(add_u128(x, y), x.wrapping_add(y));
        assert_eq!(sub_u128(x, y), x.wrapping_sub(y));
        assert_eq!(mul_u128(x, y), x.wrapping_mul(y));
    }
}

#[test]
fn divrem_sanity() {
    let mut rng = Rng::new();
    for _ in 0..TEST_COUNT {
        let mut x = rng.next_u128() >> (rng.next_u32() % 126);
        let mut y = rng.next_u128() >> (rng.next_u32() % 126);
        if x < y {
            std::mem::swap(&mut x, &mut y);
        }
        if y == 0 {
            y = 1;
        }

        let (q, r) = divrem_u128(x, y);
        assert_eq!(q.wrapping_mul(y).wrapping_add(r), x);
        assert!(r < y);
        assert_eq!(q, x / y);
        assert_eq!(r, x % y);
    }
}

#[test]
fn sqrt_sanity() {
    let mut rng = Rng::new();
    for _ in 0..TEST_COUNT {
        let x = rng.next_u128() >> (rng.next_u32() % 126);
        let s = sqrt_u128(x);

        assert!(s.saturating_mul(s) <= x);
        let sp1 = s.saturating_add(1);
        assert!(sp1.saturating_mul(sp1) > x);
    }
}

#[test]
fn decimal_string_roundtrip() {
    let mut rng = Rng::new();
    for _ in 0..TEST_COUNT {
        let x = rng.next_u128();
        let buf = to_decstr_u128(x);
        let s = std::str::from_utf8(&buf).expect("utf8");
        assert_eq!(s, format!("{x}"));

        let back = from_decstr_u128(&buf);
        assert_eq!(back, Some(x));
    }
}
