use yaskkserv2::candidates::Candidates;

#[test]
fn quote_skk_jisyo_static_test() {
    let static_not_quote_table = [(r"abc", r"/abc"), (r"ABC", r"/ABC")];
    let static_quote_table = [
        ("a\rb\ncA\n\rB\r\nC\r\rX\n\nYZ", r"/abcABCXYZ"),
        (r"abc\ABC", r"/abc\\ABC"),
        (r#"abc"ABC"#, r#"/abc\"ABC"#),
        (r"abc;XYZ", r#"/abc(concat "\073")XYZ"#),
        (r"abc/XYZ", r#"/abc(concat "\057")XYZ"#),
    ];
    for unit in &static_not_quote_table {
        assert!(!Candidates::need_quote(unit.0.as_bytes()));
        assert_eq!(Candidates::quote_and_add_prefix(unit.0.as_bytes(), Some(b'/')), unit.1.as_bytes());
    }
    for unit in &static_quote_table {
        assert!(Candidates::need_quote(unit.0.as_bytes()));
        assert_eq!(Candidates::quote_and_add_prefix(unit.0.as_bytes(), Some(b'/')), unit.1.as_bytes());
    }
}

/// A small deterministic generator of pseudo-random numbers (xorshift).
struct Rng(u64);

impl Rng {
    fn next(&mut self) -> u64 {
        let mut x = self.0;
        x ^= x << 13;
        x ^= x >> 7;
        x ^= x << 17;
        self.0 = x;
        x
    }

    /// A number in `low..high`.
    fn gen_range(&mut self, low: u64, high: u64) -> u64 {
        low + self.next() % (high - low)
    }
}

#[test]
fn quote_skk_jisyo_random_test() {
    let quote_chars = b"\r\n\\\";/";
    let mut rng = Rng(0x9e37_79b9_7f4a_7c15);
    let loop_limit = 200;
    let buffer_length = 10000;
    for _ in 0..loop_limit {
        let mut buffer = Vec::new();
        let mut add_count = 0;
        loop {
            let rand_u8 = rng.gen_range(1, 256) as u8;
            if !quote_chars.contains(&rand_u8) {
                buffer.push(rand_u8);
                add_count += 1;
                if add_count > buffer_length {
                    break;
                }
            }
        }
        assert!(!Candidates::need_quote(&buffer));
        let mut cmp_data = vec![b'/'];
        cmp_data.extend_from_slice(&buffer);
        assert_eq!(&Candidates::quote_and_add_prefix(&buffer, Some(b'/')), &cmp_data);
    }
    for _ in 0..loop_limit {
        let mut buffer = Vec::new();
        let mut add_count = 0;
        loop {
            let index = rng.gen_range(0, quote_chars.len() as u64) as usize;
            buffer.push(quote_chars[index]);
            add_count += 1;
            if add_count > buffer_length {
                break;
            }
        }
        assert!(Candidates::need_quote(&buffer));
    }
}

/// The `/`-framed list without repeated candidates, by `str` splitting and joining.
fn remove_duplicates_str(candidates_str: &str) -> String {
    let splited: Vec<&str> = candidates_str.split('/').collect();
    let mut seen = std::collections::HashSet::new();
    let kept: Vec<&str> = splited.into_iter().filter(|v| seen.insert(*v)).collect();
    let mut result = kept.join("/");
    result.push('/');
    result
}

#[test]
fn remove_duplicates_test() {
    const OUTER_LOOP_COUNT: usize = 2000;
    const BUFFER_LOOP: usize = 1000;
    let mut rng = Rng(0x2545_f491_4f6c_dd1d);
    for _ in 0..OUTER_LOOP_COUNT {
        let mut compare_vec_buffer: Vec<Vec<u8>> = Vec::new();
        let mut compare_vec_tmp = Vec::new();
        let mut buffer = vec![b'/'];
        let mut previous_u8 = b'/';
        for _ in 0..BUFFER_LOOP {
            let next_u8 = if previous_u8 != b'/' && rng.gen_range(0, 10) < 3 {
                b'/'
            } else {
                rng.gen_range(u64::from(b' '), u64::from(b'~') + 1) as u8
            };
            if previous_u8 == b'/' && next_u8 == b'/' {
                buffer.push(b'S');
                previous_u8 = b'S';
                compare_vec_tmp.push(b'S');
            } else {
                buffer.push(next_u8);
                previous_u8 = next_u8;
                compare_vec_tmp.push(next_u8);
                if next_u8 == b'/' {
                    compare_vec_buffer.push(Candidates::trim_one_slash(&compare_vec_tmp).to_vec());
                    compare_vec_tmp.clear();
                }
            }
        }
        if !compare_vec_tmp.is_empty() {
            compare_vec_buffer.push(Candidates::trim_one_slash(&compare_vec_tmp).to_vec());
        }
        if previous_u8 != b'/' {
            buffer.push(b'/');
        }
        let mut compare_vec_buffer_joined = vec![b'/'];
        compare_vec_buffer_joined.extend_from_slice(&Candidates::remove_duplicates(&compare_vec_buffer).join(&b'/'));
        compare_vec_buffer_joined.push(b'/');
        assert!(Candidates::remove_duplicates_bytes(&buffer) == compare_vec_buffer_joined);
        assert!(
            Candidates::remove_duplicates_bytes(&buffer)
                == remove_duplicates_str(&String::from_utf8(buffer).unwrap()).as_bytes()
        );
    }
}
