use flatdir::emitter::{format_record, Emitter};

fn reference_space_len(t: &[u8]) -> usize {
    if !t.is_empty() && ((0x09..=0x0D).contains(&t[0]) || t[0] == 0x20) {
        1
    } else if t.len() >= 2 && t[0] == 0xC2 && (t[1] == 0x85 || t[1] == 0xA0) {
        2
    } else if t.len() >= 3
        && ((t[0] == 0xE1 && t[1] == 0x9A && t[2] == 0x80)
            || (t[0] == 0xE2
                && t[1] == 0x80
                && ((0x80..=0x8A).contains(&t[2]) || t[2] == 0xA8 || t[2] == 0xA9 || t[2] == 0xAF))
            || (t[0] == 0xE2 && t[1] == 0x81 && t[2] == 0x9F)
            || (t[0] == 0xE3 && t[1] == 0x80 && t[2] == 0x80))
    {
        3
    } else {
        0
    }
}

fn reference_collapse(t: &[u8]) -> Vec<u8> {
    let mut out = Vec::new();
    let mut i = 0;
    while i < t.len() {
        if reference_space_len(&t[i..]) > 0 {
            while reference_space_len(&t[i..]) > 0 {
                i += reference_space_len(&t[i..]);
            }
            out.push(b' ');
        } else {
            out.push(t[i]);
            i += 1;
        }
    }
    out
}

#[test]
fn normalize_collapses_a_run_of_newlines() {
    let e = Emitter::new();
    assert_eq!(e.normalize(b"hello\n\nworld"), b"hello world".to_vec());
}

#[test]
fn normalize_keeps_one_space_at_either_end() {
    let e = Emitter::new();
    assert_eq!(e.normalize(b"  \t a  b \r\n"), b" a b ".to_vec());
}

#[test]
fn normalize_knows_every_ascii_whitespace() {
    let e = Emitter::new();
    assert_eq!(e.normalize(b"a\tb\nc\x0bd\x0ce\rf g"), b"a b c d e f g".to_vec());
}

#[test]
fn normalize_leaves_other_control_bytes() {
    let e = Emitter::new();
    assert_eq!(e.normalize(b"a\x00b\x08c\x0ed\x1ce\x1ff\x7f"), b"a\x00b\x08c\x0ed\x1ce\x1ff\x7f".to_vec());
}

#[test]
fn normalize_knows_whitespace_beyond_ascii() {
    let e = Emitter::new();
    assert_eq!(e.normalize(b"a\xc2\x85b"), b"a b".to_vec());
    assert_eq!(e.normalize(b"a\xc2\xa0b"), b"a b".to_vec());
    assert_eq!(e.normalize(b"a\xe1\x9a\x80b"), b"a b".to_vec());
    assert_eq!(e.normalize(b"a\xe2\x80\x80b"), b"a b".to_vec());
    assert_eq!(e.normalize(b"a\xe2\x80\x8ab"), b"a b".to_vec());
    assert_eq!(e.normalize(b"a\xe2\x80\xa8b"), b"a b".to_vec());
    assert_eq!(e.normalize(b"a\xe2\x80\xa9b"), b"a b".to_vec());
    assert_eq!(e.normalize(b"a\xe2\x80\xafb"), b"a b".to_vec());
    assert_eq!(e.normalize(b"a\xe2\x81\x9fb"), b"a b".to_vec());
    assert_eq!(e.normalize(b"a\xe3\x80\x80b"), b"a b".to_vec());
}

#[test]
fn normalize_joins_mixed_whitespace_into_one_run() {
    let e = Emitter::new();
    assert_eq!(e.normalize(b"a \xc2\xa0\t\xe2\x80\x83\nb"), b"a b".to_vec());
}

#[test]
fn normalize_leaves_what_only_looks_like_whitespace() {
    let e = Emitter::new();
    assert_eq!(e.normalize(b"a\xe2\x80\x8bb"), b"a\xe2\x80\x8bb".to_vec());
    assert_eq!(e.normalize(b"a\xc2\xa1b"), b"a\xc2\xa1b".to_vec());
    assert_eq!(e.normalize(b"a\xc0\xa0b"), b"a\xc0\xa0b".to_vec());
    assert_eq!(e.normalize(b"a\xa0b"), b"a\xa0b".to_vec());
    assert_eq!(e.normalize(b"a\xe2\x80"), b"a\xe2\x80".to_vec());
    assert_eq!(e.normalize(b"\xff\xfe"), b"\xff\xfe".to_vec());
}

#[test]
fn normalize_finds_whitespace_among_invalid_bytes() {
    let e = Emitter::new();
    assert_eq!(e.normalize(b"\xff\xc2\xa0\xff"), b"\xff \xff".to_vec());
    assert_eq!(e.normalize(b"\xe2\x80\xe2\x80\x80"), b"\xe2\x80 ".to_vec());
    assert_eq!(e.normalize(b"\xc2 \xa0"), b"\xc2 \xa0".to_vec());
}

#[test]
fn normalize_of_nothing_is_nothing() {
    let e = Emitter::new();
    assert_eq!(e.normalize(b""), Vec::<u8>::new());
}

#[test]
fn normalize_is_idempotent() {
    let e = Emitter::new();
    let inputs: [&[u8]; 5] = [b"a  b\t\tc", b"   ", b"\xc2\xa0\xc2\xa0x", b"x\xc2 \xa0y", b"no-space"];
    for input in inputs {
        let once = e.normalize(input);
        assert_eq!(e.normalize(&once), once);
    }
}

#[test]
fn normalize_keeps_the_other_bytes_in_order() {
    let e = Emitter::new();
    let out = e.normalize(b"  z \n y\t\tx  ");
    let solid: Vec<u8> = out.into_iter().filter(|b| *b != b' ').collect();
    assert_eq!(solid, b"zyx".to_vec());
}

#[test]
fn normalize_agrees_with_the_byte_table_on_short_inputs() {
    let e = Emitter::new();
    let alphabet: [u8; 17] = [
        0x09, 0x0D, 0x20, 0x61, 0x80, 0x81, 0x85, 0x8A, 0x8B, 0x9A, 0x9F, 0xA0, 0xA8, 0xAF, 0xC2, 0xE2, 0xE3,
    ];
    let n = alphabet.len();
    for len in 0..=4usize {
        let total = n.pow(len as u32);
        for code in 0..total {
            let mut input = Vec::with_capacity(len);
            let mut rest = code;
            for _ in 0..len {
                input.push(alphabet[rest % n]);
                rest /= n;
            }
            assert_eq!(e.normalize(&input), reference_collapse(&input), "input {:?}", input);
        }
    }
}

#[test]
fn normalize_agrees_with_the_byte_table_around_each_lead_byte() {
    let e = Emitter::new();
    for lead in [0xC2u8, 0xE1, 0xE2, 0xE3] {
        for second in 0x00..=0xFFu8 {
            for third in [0x00u8, 0x20, 0x7F, 0x80, 0x85, 0x8A, 0x8B, 0x9F, 0xA0, 0xA7, 0xA8, 0xA9, 0xAA, 0xAF, 0xB0, 0xBF, 0xC2, 0xFF] {
                let input = [b'x', lead, second, third, b'y'];
                assert_eq!(e.normalize(&input), reference_collapse(&input), "input {:?}", input);
            }
        }
    }
}

#[test]
fn format_record_joins_with_tab_and_newline() {
    assert_eq!(format_record(b"./a.txt", b"hello world"), b"./a.txt\thello world\n".to_vec());
    assert_eq!(format_record(b"", b""), b"\t\n".to_vec());
}

#[test]
fn record_collapses_contents_and_keeps_the_path() {
    let e = Emitter::new();
    assert_eq!(e.record(b"./a.txt", b"hello\n\nworld"), b"./a.txt\thello world\n".to_vec());
}

#[test]
fn record_does_not_collapse_the_path() {
    let e = Emitter::new();
    assert_eq!(e.record(b"./a  b.txt", b"x"), b"./a  b.txt\tx\n".to_vec());
}

#[test]
fn record_prints_an_invalid_path_with_replacement_characters() {
    let e = Emitter::new();
    assert_eq!(e.record(b"./\xff.txt", b"x"), b"./\xef\xbf\xbd.txt\tx\n".to_vec());
}

#[test]
fn record_of_an_empty_file_has_empty_contents() {
    let e = Emitter::new();
    assert_eq!(e.record(b"./e.txt", b""), b"./e.txt\t\n".to_vec());
}

#[test]
fn record_keeps_a_path_that_is_valid_beyond_ascii() {
    let e = Emitter::new();
    assert_eq!(e.record("./\u{e9}t\u{e9}.txt".as_bytes(), b"x"), "./\u{e9}t\u{e9}.txt\tx\n".as_bytes().to_vec());
}
