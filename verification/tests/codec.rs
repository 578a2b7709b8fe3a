use prg_codec::error::CodecError;
use prg_codec::head::Head;
use prg_codec::naming::candidate_file_name;
use prg_codec::program::Program;
use prg_codec::step::Step;
use prg_codec::wire::{read_u16, read_u8, write_u16};

fn sample_step(quote: u16) -> Step {
    Step {
        quote,
        p1: 1,
        p2: 2,
        p3: 3,
        p4: 4,
        p5: 5,
        p6: 6,
        p7: 7,
        p8: 8,
        l: 9,
        r: 10,
    }
}

fn sample_program(read_bin: bool, steps: Vec<Step>) -> Program {
    Program {
        head: Head {
            wait_l: 12,
            wait_r: 34,
        },
        steps,
        read_bin,
    }
}

#[test]
fn wire_u16_round_trip() {
    let mut buf = vec![0u8; 4];
    write_u16(0x1234, &mut buf, 1);
    assert_eq!(buf, vec![0, 0x34, 0x12, 0]);
    assert_eq!(read_u16(&buf[1..]), 0x1234);
    assert_eq!(read_u8(&buf[2..]), 0x12);
}

#[test]
fn head_encodes_to_fixed_layout() {
    let h = Head {
        wait_l: 12,
        wait_r: 34,
    };
    let b = h.to_bytes();
    assert_eq!(b.len(), 22);
    assert_eq!(b[0], 1);
    assert_eq!(&b[10..12], &[12, 0]);
    assert_eq!(&b[12..14], &[34, 0]);
    for (i, &x) in b.iter().enumerate() {
        if i != 0 && !(10..14).contains(&i) {
            assert_eq!(x, 0);
        }
    }
}

#[test]
fn head_binary_round_trip() {
    let h = Head {
        wait_l: 65535,
        wait_r: 256,
    };
    assert_eq!(Head::from_bytes(&h.to_bytes()), h);
}

#[test]
fn head_text_is_center_padded() {
    let h = Head {
        wait_l: 12,
        wait_r: 34,
    };
    assert_eq!(h.to_string(), "  12   |  34   ");
}

#[test]
fn head_text_round_trip() {
    let h = Head {
        wait_l: 12,
        wait_r: 34,
    };
    assert_eq!(Head::from_string(&h.to_string()), Ok(h));
    assert_eq!(
        Head::from_string("12|34"),
        Ok(Head {
            wait_l: 12,
            wait_r: 34
        })
    );
}

#[test]
fn head_text_errors() {
    assert_eq!(Head::from_string("a|b"), Err(CodecError::Parse));
    assert_eq!(Head::from_string("12"), Err(CodecError::Parse));
    assert_eq!(Head::from_string("65536|0"), Err(CodecError::Parse));
    assert_eq!(Head::from_string(""), Err(CodecError::Parse));
}

#[test]
fn step_decodes_from_bytes() {
    let bytes = [5u8, 0, 0, 0, 1, 2, 3, 4, 5, 6, 7, 8, 9, 10];
    assert_eq!(Step::from_bytes(&bytes), sample_step(5));
}

#[test]
fn zero_quote_yields_empty_sequence() {
    let bytes = [0u8; 14];
    assert!(Step::vec_from_bytes(&bytes).is_empty());
}

#[test]
fn sentinel_truncates_whatever_follows() {
    let mut bytes = Vec::new();
    bytes.extend_from_slice(&sample_step(1).to_bytes());
    bytes.extend_from_slice(&[0u8; 14]);
    bytes.extend_from_slice(&sample_step(7).to_bytes());
    let steps = Step::vec_from_bytes(&bytes);
    assert_eq!(steps, vec![sample_step(1)]);
}

#[test]
fn short_trailing_chunk_terminates_without_error() {
    let mut bytes = Vec::new();
    bytes.extend_from_slice(&sample_step(1).to_bytes());
    bytes.extend_from_slice(&[3u8; 13]);
    let steps = Step::vec_from_bytes(&bytes);
    assert_eq!(steps, vec![sample_step(1)]);
}

#[test]
fn step_binary_round_trip() {
    let s = sample_step(500);
    let b = s.to_bytes();
    assert_eq!(b.len(), 14);
    assert_eq!(&b[0..2], &[244, 1]);
    assert_eq!(b[2], 0);
    assert_eq!(b[3], 0);
    assert_eq!(Step::from_bytes(&b), s);
}

#[test]
fn step_text_is_aligned() {
    assert_eq!(sample_step(5).to_string(), "    5 | 1 2 3 4 5 6 7 8 | 9 10");
}

#[test]
fn step_text_round_trip() {
    let s = sample_step(65535);
    assert_eq!(Step::from_string(&s.to_string()), Ok(s));
    let zero = sample_step(0);
    assert_eq!(Step::from_string(&zero.to_string()), Ok(zero));
}

#[test]
fn step_text_errors() {
    assert_eq!(Step::from_string("5"), Err(CodecError::Parse));
    assert_eq!(
        Step::from_string("5 | 1 2 3 | 9 10"),
        Err(CodecError::Parse)
    );
    assert_eq!(
        Step::from_string("5 | 1 2 3 4 5 6 7 8 | 9"),
        Err(CodecError::Parse)
    );
    assert_eq!(
        Step::from_string("5 | 1 2 3 4 5 6 256 8 | 9 10"),
        Err(CodecError::Parse)
    );
}

#[test]
fn steps_from_lines_in_order() {
    let lines = vec![
        sample_step(1).to_string(),
        sample_step(2).to_string(),
        sample_step(3).to_string(),
    ];
    let steps = Step::vec_from_string(&lines).unwrap();
    assert_eq!(steps, vec![sample_step(1), sample_step(2), sample_step(3)]);
}

#[test]
fn steps_from_lines_reject_bad_line() {
    let lines = vec![sample_step(1).to_string(), "oops".to_string()];
    assert_eq!(Step::vec_from_string(&lines), Err(CodecError::Parse));
}

#[test]
fn binary_image_is_always_padded_to_1422() {
    let p = sample_program(false, vec![sample_step(1)]);
    let bytes = p.encode_to_binary().unwrap();
    assert_eq!(bytes.len(), 1422);
    let empty = sample_program(false, Vec::new());
    assert_eq!(empty.encode_to_binary().unwrap().len(), 1422);
}

#[test]
fn size_ceiling_is_fatal_not_truncating() {
    let steps: Vec<Step> = (1..=101).map(|i| sample_step(i as u16)).collect();
    let p = sample_program(false, steps);
    assert_eq!(p.encode_to_binary(), Err(CodecError::SizeCeiling));
    let steps: Vec<Step> = (1..=100).map(|i| sample_step(i as u16)).collect();
    let p = sample_program(false, steps);
    assert_eq!(p.encode_to_binary().unwrap().len(), 1422);
}

#[test]
fn binary_round_trip_reproduces_the_bytes() {
    let p = sample_program(false, vec![sample_step(1), sample_step(2)]);
    let bytes = p.encode_to_binary().unwrap();
    let q = Program::from_bytes(&bytes).unwrap();
    assert!(q.read_bin);
    assert_eq!(q.head, p.head);
    assert_eq!(q.steps, p.steps);
    assert_eq!(q.encode_to_binary().unwrap(), bytes);
}

#[test]
fn binary_decode_needs_a_header() {
    assert_eq!(
        Program::from_bytes(&[1u8; 21]).unwrap_err(),
        CodecError::Structure
    );
    let p = Program::from_bytes(&[0u8; 22]).unwrap();
    assert_eq!(p.head, Head {
        wait_l: 0,
        wait_r: 0
    });
    assert!(p.steps.is_empty());
}

#[test]
fn text_has_the_fixed_line_layout() {
    let p = sample_program(true, vec![sample_step(5)]);
    let text = p.encode_to_text();
    let lines: Vec<&str> = text.split('\n').collect();
    assert_eq!(lines[0], "Wait L | Wait R");
    assert_eq!(lines[1], "  12   |  34   ");
    assert_eq!(lines[2], "");
    assert_eq!(lines[3], "Quote | 1 2 3 4 5 6 7 8 | L R");
    assert_eq!(lines[4], "-----------------------------");
    assert_eq!(lines[5], "    5 | 1 2 3 4 5 6 7 8 | 9 10");
    assert_eq!(lines[6], "");
}

#[test]
fn text_round_trip_preserves_all_values() {
    let p = sample_program(true, vec![sample_step(1), sample_step(900)]);
    let text = p.encode_to_text();
    let q = Program::from_text(&text).unwrap();
    assert!(!q.read_bin);
    assert_eq!(q.head, p.head);
    assert_eq!(q.steps, p.steps);
}

#[test]
fn text_round_trip_with_no_steps() {
    let p = sample_program(true, Vec::new());
    let q = Program::from_text(&p.encode_to_text()).unwrap();
    assert_eq!(q.head, p.head);
    assert!(q.steps.is_empty());
}

#[test]
fn text_decode_needs_five_lines() {
    assert_eq!(
        Program::from_text("").unwrap_err(),
        CodecError::Structure
    );
    assert_eq!(
        Program::from_text("Wait L | Wait R\n12|34\n").unwrap_err(),
        CodecError::Structure
    );
    assert_eq!(
        Program::from_text("a\nb|c\nd\ne\nf\n").unwrap_err(),
        CodecError::Parse
    );
}

#[test]
fn decode_detects_text_input() {
    let p = sample_program(true, vec![sample_step(5)]);
    let text = p.encode_to_text();
    let q = Program::decode(text.as_bytes()).unwrap();
    assert!(!q.read_bin);
    assert_eq!(q.head, p.head);
    assert_eq!(q.steps, p.steps);
}

#[test]
fn decode_detects_binary_input() {
    let mut s = sample_step(1);
    s.p1 = 255;
    let p = sample_program(false, vec![s]);
    let bytes = p.encode_to_binary().unwrap();
    assert!(std::str::from_utf8(&bytes).is_err());
    let q = Program::decode(&bytes).unwrap();
    assert!(q.read_bin);
    assert_eq!(q.head, p.head);
    assert_eq!(q.steps, p.steps);
}

#[test]
fn output_goes_to_the_other_format() {
    assert_eq!(sample_program(true, Vec::new()).output_extension(), "txt");
    assert_eq!(sample_program(false, Vec::new()).output_extension(), "prg");
}

#[test]
fn collision_candidates_count_upward() {
    assert_eq!(candidate_file_name("foo.txt", 0), "foo_0.txt");
    assert_eq!(candidate_file_name("foo.txt", 1), "foo_1.txt");
    assert_eq!(candidate_file_name("foo.txt", 99), "foo_99.txt");
    assert_eq!(candidate_file_name("a.b.txt", 3), "a_3.b.txt");
}
