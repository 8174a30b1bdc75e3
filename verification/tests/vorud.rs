use calx::vorud::{c, decode, durov_chunk, v, vorud_chunk, Decode, FromVorud, ToVorud, Vorud};

fn vorud(s: &str) -> Vorud {
    Vorud::new(s.to_string()).unwrap()
}

#[test]
fn test_vorud() {
    assert_eq!("babab", vorud_chunk(0).as_str());
    assert_eq!("babad", vorud_chunk(1).as_str());
    assert_eq!(Ok(0u16), durov_chunk("babab"));
    assert_eq!(Ok(1234u16), durov_chunk(vorud_chunk(1234).as_str()));
    assert_eq!("togas", vorud_chunk(durov_chunk("togas").unwrap()).as_str());
    assert_eq!(vorud("babab-babab"), 0u32.to_vorud());
    assert_eq!(vorud("babab-babad"), 1u32.to_vorud());
    assert_eq!(Ok(1u32), FromVorud::from_vorud(&vorud("babab-babad")));
}

#[test]
fn chunk_digits_have_the_documented_weights() {
    assert_eq!("babad", vorud_chunk(1).as_str());
    assert_eq!("babeb", vorud_chunk(14).as_str());
    assert_eq!("badab", vorud_chunk(70).as_str());
    assert_eq!("bebab", vorud_chunk(980).as_str());
    assert_eq!("dabab", vorud_chunk(4900).as_str());
    assert_eq!("babaz", vorud_chunk(13).as_str());
    assert_eq!(Ok(4900 + 980 + 70 + 14 + 1), durov_chunk("deded"));
    assert_eq!(Ok(4900 + 980 + 70 + 14 + 2), durov_chunk("dedef"));
}

#[test]
fn chunk_round_trip_for_every_value() {
    for x in 0..=u16::MAX {
        let word = vorud_chunk(x);
        assert_eq!(word.chars().count(), 5);
        assert_eq!(durov_chunk(word.as_str()), Ok(x));
    }
}

#[test]
fn largest_chunk() {
    // 65535 = 13 * 4900 + 1 * 980 + 12 * 70 + 0 * 14 + 15 is not a digit
    // string; work it out digit by digit instead.
    let x: u16 = u16::MAX;
    let c5 = x % 14;
    let v4 = x / 14 % 5;
    let c3 = x / 70 % 14;
    let v2 = x / 980 % 5;
    let c1 = x / 4900 % 14;
    let cs = ['b', 'd', 'f', 'g', 'j', 'k', 'm', 'n', 'p', 'r', 's', 't', 'v', 'z'];
    let vs = ['a', 'e', 'i', 'o', 'u'];
    let expect: String = [
        cs[c1 as usize],
        vs[v2 as usize],
        cs[c3 as usize],
        vs[v4 as usize],
        cs[c5 as usize],
    ]
    .iter()
    .collect();
    assert_eq!(vorud_chunk(x), expect);
}

#[test]
fn durov_chunk_rejects_what_is_no_word() {
    assert_eq!(durov_chunk(""), Err(()));
    assert_eq!(durov_chunk("baba"), Err(()));
    assert_eq!(durov_chunk("bababa"), Err(()));
    assert_eq!(durov_chunk("abab"), Err(()));
    assert_eq!(durov_chunk("ababa"), Err(()));
    assert_eq!(durov_chunk("bbbab"), Err(()));
    assert_eq!(durov_chunk("bacab"), Err(()));
    assert_eq!(durov_chunk("BABAB"), Err(()));
    assert_eq!(durov_chunk("bab-b"), Err(()));
    assert_eq!(durov_chunk("b\u{e9}bab"), Err(()));
}

#[test]
fn durov_chunk_rejects_more_than_sixteen_bits() {
    // "zuzuz" stands for 13 * 4900 + 4 * 980 + 13 * 70 + 4 * 14 + 13 = 68599.
    assert_eq!(durov_chunk("zuzuz"), Err(()));
    // 65535 is the last value that fits, 65536 the first that does not.
    assert_eq!(durov_chunk(vorud_chunk(65535).as_str()), Ok(65535));
    let x: u32 = 65536;
    let cs = ['b', 'd', 'f', 'g', 'j', 'k', 'm', 'n', 'p', 'r', 's', 't', 'v', 'z'];
    let vs = ['a', 'e', 'i', 'o', 'u'];
    let word: String = [
        cs[(x / 4900 % 14) as usize],
        vs[(x / 980 % 5) as usize],
        cs[(x / 70 % 14) as usize],
        vs[(x / 14 % 5) as usize],
        cs[(x % 14) as usize],
    ]
    .iter()
    .collect();
    assert_eq!(durov_chunk(&word), Err(()));
}

#[test]
fn letters_decode() {
    assert_eq!(decode('a'), Some(Decode::V(0)));
    assert_eq!(decode('u'), Some(Decode::V(4)));
    assert_eq!(decode('b'), Some(Decode::C(0)));
    assert_eq!(decode('z'), Some(Decode::C(13)));
    assert_eq!(decode('c'), None);
    assert_eq!(decode('h'), None);
    assert_eq!(decode('l'), None);
    assert_eq!(decode('q'), None);
    assert_eq!(decode('w'), None);
    assert_eq!(decode('x'), None);
    assert_eq!(decode('y'), None);
    assert_eq!(decode('-'), None);
    assert_eq!(decode('A'), None);
    assert_eq!(v('o'), Ok(3));
    assert_eq!(v('t'), Err(()));
    assert_eq!(c('t'), Ok(11));
    assert_eq!(c('o'), Err(()));
    let vowels = ['a', 'e', 'i', 'o', 'u'];
    for (i, l) in vowels.iter().enumerate() {
        assert_eq!(v(*l), Ok(i as u16));
        assert_eq!(c(*l), Err(()));
    }
    let consonants = ['b', 'd', 'f', 'g', 'j', 'k', 'm', 'n', 'p', 'r', 's', 't', 'v', 'z'];
    for (i, l) in consonants.iter().enumerate() {
        assert_eq!(c(*l), Ok(i as u16));
        assert_eq!(v(*l), Err(()));
    }
}

#[test]
fn vorud_new_accepts_words_joined_by_hyphens() {
    assert!(Vorud::new(String::new()).is_ok());
    assert!(Vorud::new("babab".to_string()).is_ok());
    assert!(Vorud::new("togas-babad".to_string()).is_ok());
    assert!(Vorud::new("zuzuz-zuzuz-zuzuz".to_string()).is_ok());
    assert_eq!(vorud("togas-babad").as_str(), "togas-babad");
}

#[test]
fn vorud_new_rejects_other_texts() {
    for bad in [
        "b", "ba", "bab", "baba", "bababa", "babab-", "-babab", "babab-baba", "babab babab",
        "babab--babab", "bbbab", "aabab", "babab-bacab", "Babab", "babab-babab-", "b\u{e9}bab",
    ] {
        assert_eq!(Vorud::new(bad.to_string()), Err(()));
    }
}

#[test]
fn bytes_to_vorud() {
    let bytes: &[u8] = &[0, 0, 0, 1];
    assert_eq!(bytes.to_vorud(), vorud("babab-babad"));
    let bytes: &[u8] = &[1, 0];
    assert_eq!(bytes.to_vorud().as_str(), vorud_chunk(256).as_str());
    let bytes: &[u8] = &[0x12, 0x34, 0xab, 0xcd];
    let expect = format!("{}-{}", vorud_chunk(0x1234), vorud_chunk(0xabcd));
    assert_eq!(bytes.to_vorud().as_str(), expect);
    let none: &[u8] = &[];
    assert_eq!(none.to_vorud().as_str(), "");
}

#[test]
fn an_odd_byte_at_the_end_is_not_written() {
    let bytes: &[u8] = &[0, 1, 7];
    assert_eq!(bytes.to_vorud(), vorud("babad"));
    let bytes: &[u8] = &[7];
    assert_eq!(bytes.to_vorud().as_str(), "");
}

#[test]
fn vorud_to_bytes() {
    let r: Result<Vec<u8>, ()> = FromVorud::from_vorud(&vorud("babab-babad"));
    assert_eq!(r, Ok(vec![0, 0, 0, 1]));
    // A word of the value x gives the bytes x / 255 and x % 255.
    let word = vorud_chunk(1000);
    let r: Result<Vec<u8>, ()> = FromVorud::from_vorud(&vorud(word.as_str()));
    assert_eq!(r, Ok(vec![3, 235]));
    let word = vorud_chunk(65535);
    let r: Result<Vec<u8>, ()> = FromVorud::from_vorud(&vorud(word.as_str()));
    assert_eq!(r, Ok(vec![1, 0]));
}

#[test]
fn vorud_to_bytes_errors() {
    let r: Result<Vec<u8>, ()> = FromVorud::from_vorud(&vorud(""));
    assert_eq!(r, Err(()));
    let r: Result<Vec<u8>, ()> = FromVorud::from_vorud(&vorud("babab-zuzuz"));
    assert_eq!(r, Err(()));
}

#[test]
fn u32_vorud() {
    assert_eq!(0u32.to_vorud().as_str(), "babab-babab");
    assert_eq!(1u32.to_vorud().as_str(), "babab-babad");
    // The four bytes of x are x / 2^24, x / 2^16, x / 2^8 and x, each
    // reduced modulo 255: for 0x01020304 they are 1, 3, 6 and 10.
    assert_eq!(
        0x0102_0304u32.to_vorud().as_str(),
        format!("{}-{}", vorud_chunk(256 + 3), vorud_chunk(6 * 256 + 10))
    );
    let bytes: &[u8] = &[1, 3, 6, 10];
    assert_eq!(0x0102_0304u32.to_vorud(), bytes.to_vorud());
    let r: Result<u32, ()> = FromVorud::from_vorud(&vorud("babab-babab"));
    assert_eq!(r, Ok(0));
    for x in [0u32, 1, 2, 100, 254] {
        let r: Result<u32, ()> = FromVorud::from_vorud(&x.to_vorud());
        assert_eq!(r, Ok(x));
    }
}

#[test]
fn u32_from_vorud_errors() {
    let r: Result<u32, ()> = FromVorud::from_vorud(&vorud("babab"));
    assert_eq!(r, Err(()));
    let r: Result<u32, ()> = FromVorud::from_vorud(&vorud("babab-babab-babab"));
    assert_eq!(r, Err(()));
    let r: Result<u32, ()> = FromVorud::from_vorud(&vorud(""));
    assert_eq!(r, Err(()));
    let r: Result<u32, ()> = FromVorud::from_vorud(&vorud("zuzuz-babab"));
    assert_eq!(r, Err(()));
}
