//! The full program codec: a header plus an ordered step sequence, decoded
//! from one format and encoded into the other, with the 1422-byte ceiling on
//! the binary form.

use vstd::prelude::*;
use vstd::string::*;
use vstd::utf8::{decode_utf8, encode_utf8, encode_utf8_decode_utf8, valid_utf8};

use crate::error::CodecError;
use crate::head::{
    lemma_head_text_no_newline, lemma_head_text_round_trip, spec_head_bytes,
    spec_head_from_bytes, spec_head_from_text, spec_head_text, Head,
};
use crate::step::{
    lemma_step_text_no_newline, lemma_step_text_round_trip, spec_decode_steps, spec_step_bytes,
    spec_step_from_bytes, spec_step_text, spec_steps_from_lines, Step,
};
use crate::text::{
    is_space_char, join_sep, join_term, lemma_join_sep_ends, lemma_join_term_append,
    lemma_join_term_as_sep, lemma_split_join_sep, lemma_trim_exact, spec_split, spec_trim,
    split_char, trim_str,
};
use crate::wire::{
    lemma_bytes_of_u16_le, lemma_u16_le_of_bytes, u16_le, zero_pad_to, zero_seq,
};

verus! {

/// Largest binary image the storage medium can hold, in bytes.
pub const BINARY_CEILING: usize = 1422;

/// A decoded program: its header, its steps in execution order, and the
/// format it was decoded from (which selects the format it is encoded to).
#[derive(Debug)]
pub struct Program {
    pub head: Head,
    pub steps: Vec<Step>,
    /// True when the program was decoded from the binary format.
    pub read_bin: bool,
}

/// The concatenated binary images of a step sequence, in order.
pub open spec fn spec_steps_bytes(ss: Seq<Step>) -> Seq<u8>
    decreases ss.len(),
{
    if ss.len() == 0 {
        Seq::empty()
    } else {
        spec_step_bytes(ss[0]) + spec_steps_bytes(ss.drop_first())
    }
}

/// The unpadded binary image of a program: header bytes, then step bytes.
pub open spec fn spec_program_bytes(h: Head, ss: Seq<Step>) -> Seq<u8> {
    spec_head_bytes(h) + spec_steps_bytes(ss)
}

/// The stored binary image: the program bytes, zero-padded to exactly 1422
/// bytes.  The padding is what the next binary decode reads as its sentinel.
pub open spec fn spec_binary_image(h: Head, ss: Seq<Step>) -> Seq<u8>
    recommends
        22 + 14 * ss.len() <= 1422,
{
    spec_program_bytes(h, ss) + zero_seq((1422 - (22 + 14 * ss.len())) as nat)
}

pub proof fn lemma_steps_bytes_len(ss: Seq<Step>)
    ensures
        spec_steps_bytes(ss).len() == 14 * ss.len(),
    decreases ss.len(),
{
    if ss.len() > 0 {
        lemma_steps_bytes_len(ss.drop_first());
    }
}

pub proof fn lemma_steps_bytes_push(ss: Seq<Step>, s: Step)
    ensures
        spec_steps_bytes(ss.push(s)) == spec_steps_bytes(ss) + spec_step_bytes(s),
    decreases ss.len(),
{
    if ss.len() == 0 {
        assert(ss.push(s).drop_first() =~= Seq::<Step>::empty());
        assert(spec_steps_bytes(Seq::<Step>::empty()) == Seq::<u8>::empty());
        assert(ss.push(s)[0] == s);
        assert(spec_steps_bytes(ss.push(s)) == spec_step_bytes(s) + Seq::<u8>::empty());
        assert(spec_steps_bytes(ss.push(s)) =~= spec_steps_bytes(ss) + spec_step_bytes(s));
    } else {
        assert(ss.push(s).drop_first() =~= ss.drop_first().push(s));
        lemma_steps_bytes_push(ss.drop_first(), s);
        assert(ss.push(s)[0] == ss[0]);
        assert(spec_steps_bytes(ss.push(s)) == spec_step_bytes(ss[0]) + (spec_steps_bytes(
            ss.drop_first(),
        ) + spec_step_bytes(s)));
        assert(spec_steps_bytes(ss.push(s)) =~= spec_steps_bytes(ss) + spec_step_bytes(s));
    }
}

/// Bytes that a binary encode can produce as its step region: either the
/// whole rest is zero (padding from the first sentinel on), or one full
/// record with a nonzero quote and zeroed reserved bytes, followed by more of
/// the same.
pub open spec fn wf_steps_bytes(r: Seq<u8>) -> bool
    decreases r.len(),
{
    if r.len() < 14 {
        forall|i: int| 0 <= i < r.len() ==> r[i] == 0u8
    } else if u16_le(r[0], r[1]) == 0 {
        forall|i: int| 0 <= i < r.len() ==> r[i] == 0u8
    } else {
        r[2] == 0u8 && r[3] == 0u8 && wf_steps_bytes(r.skip(14))
    }
}

/// Bytes that a binary encode can produce: exactly 1422 bytes, the header
/// marker and reserved bytes in place, and a well-formed step region.
pub open spec fn wf_binary(b: Seq<u8>) -> bool {
    &&& b.len() == 1422
    &&& b[0] == 1u8
    &&& forall|i: int| 1 <= i < 10 ==> b[i] == 0u8
    &&& forall|i: int| 14 <= i < 22 ==> b[i] == 0u8
    &&& wf_steps_bytes(b.skip(22))
}

proof fn lemma_steps_bytes_round_trip(r: Seq<u8>)
    requires
        wf_steps_bytes(r),
    ensures
        14 * spec_decode_steps(r).len() <= r.len(),
        spec_steps_bytes(spec_decode_steps(r)) + zero_seq(
            (r.len() - 14 * spec_decode_steps(r).len()) as nat,
        ) == r,
    decreases r.len(),
{
    let ss = spec_decode_steps(r);
    if r.len() < 14 || u16_le(r[0], r[1]) == 0 {
        assert(ss =~= Seq::empty());
        assert(spec_steps_bytes(ss) + zero_seq(r.len()) =~= r);
    } else {
        let s = spec_step_from_bytes(r);
        assert(s.quote == u16_le(r[0], r[1]));
        lemma_steps_bytes_round_trip(r.skip(14));
        assert(spec_step_bytes(s) =~= r.take(14)) by {
            lemma_bytes_of_u16_le(r[0], r[1]);
        }
        assert(ss == seq![s] + spec_decode_steps(r.skip(14)));
        assert(ss.drop_first() =~= spec_decode_steps(r.skip(14)));
        assert(ss[0] == s);
        assert(spec_steps_bytes(ss) == spec_step_bytes(s) + spec_steps_bytes(
            spec_decode_steps(r.skip(14)),
        ));
        lemma_steps_bytes_len(spec_decode_steps(r.skip(14)));
        let tail = spec_decode_steps(r.skip(14));
        assert(spec_steps_bytes(ss) + zero_seq((r.len() - 14 * ss.len()) as nat) =~= r.take(14) + (
        spec_steps_bytes(tail) + zero_seq((r.skip(14).len() - 14 * tail.len()) as nat)));
        assert(r.take(14) + r.skip(14) =~= r);
        assert(spec_steps_bytes(ss) + zero_seq((r.len() - 14 * ss.len()) as nat) == r);
    }
}

/// Round trip, binary to memory and back: any well-formed 1422-byte binary
/// image re-encodes, padding included, to exactly its original bytes, and
/// the program decoded from it is small enough that the encode succeeds.
pub proof fn lemma_binary_round_trip(b: Seq<u8>)
    requires
        wf_binary(b),
    ensures
        22 + 14 * spec_decode_steps(b.skip(22)).len() <= 1422,
        spec_binary_image(spec_head_from_bytes(b), spec_decode_steps(b.skip(22))) == b,
{
    let region = b.skip(22);
    lemma_steps_bytes_round_trip(region);
    let ss = spec_decode_steps(region);
    assert(spec_head_bytes(spec_head_from_bytes(b)) =~= b.take(22)) by {
        lemma_bytes_of_u16_le(b[10], b[11]);
        lemma_bytes_of_u16_le(b[12], b[13]);
    }
    lemma_steps_bytes_len(ss);
    assert(spec_binary_image(spec_head_from_bytes(b), ss) =~= b.take(22) + (spec_steps_bytes(ss)
        + zero_seq((region.len() - 14 * ss.len()) as nat)));
    assert(b.take(22) + b.skip(22) =~= b);
    assert(spec_binary_image(spec_head_from_bytes(b), ss) == b);
}

proof fn lemma_steps_bytes_decode(ss: Seq<Step>, pad: nat)
    requires
        forall|i: int| 0 <= i < ss.len() ==> ss[i].quote != 0,
    ensures
        spec_decode_steps(spec_steps_bytes(ss) + zero_seq(pad)) == ss,
    decreases ss.len(),
{
    let r = spec_steps_bytes(ss) + zero_seq(pad);
    if ss.len() == 0 {
        if pad < 14 {
            assert(spec_decode_steps(r) =~= ss);
        } else {
            assert(r[0] == 0u8 && r[1] == 0u8);
            assert(u16_le(r[0], r[1]) == 0);
            assert(spec_decode_steps(r) =~= ss);
        }
    } else {
        let s = ss[0];
        lemma_steps_bytes_len(ss);
        assert(r.len() >= 14);
        assert(r.take(14) =~= spec_step_bytes(s));
        assert(spec_step_from_bytes(r) == s) by {
            lemma_u16_le_of_bytes(s.quote);
        }
        assert(r.skip(14) =~= spec_steps_bytes(ss.drop_first()) + zero_seq(pad));
        lemma_steps_bytes_decode(ss.drop_first(), pad);
        assert(spec_decode_steps(r) =~= ss);
    }
}

/// Round trip, memory to binary and back: decoding the padded binary image
/// of any program whose steps all carry a nonzero quote yields that program
/// back, header and steps alike.
pub proof fn lemma_binary_image_decodes(h: Head, ss: Seq<Step>)
    requires
        forall|i: int| 0 <= i < ss.len() ==> ss[i].quote != 0,
        22 + 14 * ss.len() <= 1422,
    ensures
        spec_head_from_bytes(spec_binary_image(h, ss)) == h,
        spec_decode_steps(spec_binary_image(h, ss).skip(22)) == ss,
{
    let b = spec_binary_image(h, ss);
    lemma_steps_bytes_len(ss);
    assert(b[10] == spec_head_bytes(h)[10] && b[11] == spec_head_bytes(h)[11] && b[12]
        == spec_head_bytes(h)[12] && b[13] == spec_head_bytes(h)[13]);
    assert(spec_head_from_bytes(b) == h) by {
        lemma_u16_le_of_bytes(h.wait_l);
        lemma_u16_le_of_bytes(h.wait_r);
    }
    assert(b.skip(22) =~= spec_steps_bytes(ss) + zero_seq((1422 - (22 + 14 * ss.len())) as nat));
    lemma_steps_bytes_decode(ss, (1422 - (22 + 14 * ss.len())) as nat);
}

/// The text lines of one step per line, in order.
pub open spec fn spec_step_text_lines(ss: Seq<Step>) -> Seq<Seq<char>> {
    Seq::new(ss.len(), |i: int| spec_step_text(ss[i]))
}

/// All lines of the text file: two fixed column captions, the header line, a
/// blank line, a dash separator, then one line per step.
pub open spec fn spec_all_lines(h: Head, ss: Seq<Step>) -> Seq<Seq<char>> {
    seq![
        "Wait L | Wait R"@,
        spec_head_text(h),
        Seq::<char>::empty(),
        "Quote | 1 2 3 4 5 6 7 8 | L R"@,
        "-----------------------------"@,
    ] + spec_step_text_lines(ss)
}

/// The whole text file: every line, each terminated by a newline.
pub open spec fn spec_program_text(h: Head, ss: Seq<Step>) -> Seq<char> {
    join_term(spec_all_lines(h, ss), '\n')
}

/// The program parsed from a text file: the trimmed text is split into
/// lines; line 1 is the header line and lines 5 onward are step lines, the
/// rest is ignored.  Fewer than five lines is a structural error; a bad
/// header or step line is a parse error.
pub open spec fn spec_program_from_text(s: Seq<char>) -> Result<(Head, Seq<Step>), CodecError> {
    let v = spec_split(spec_trim(s), '\n');
    if v.len() < 5 {
        Err(CodecError::Structure)
    } else {
        match spec_head_from_text(v[1]) {
            Ok(h) => match spec_steps_from_lines(v.skip(5)) {
                Some(ss) => Ok((h, ss)),
                None => Err(CodecError::Parse),
            },
            Err(e) => Err(e),
        }
    }
}

proof fn lemma_step_lines_parse(ss: Seq<Step>)
    ensures
        spec_steps_from_lines(spec_step_text_lines(ss)) == Some(ss),
    decreases ss.len(),
{
    let lines = spec_step_text_lines(ss);
    if ss.len() == 0 {
        assert(spec_steps_from_lines(lines) =~~= Some(ss));
    } else {
        lemma_step_text_round_trip(ss[0]);
        assert(lines[0] == spec_step_text(ss[0]));
        assert(lines.drop_first() =~~= spec_step_text_lines(ss.drop_first()));
        lemma_step_lines_parse(ss.drop_first());
        assert(seq![ss[0]] + ss.drop_first() =~= ss);
    }
}

/// Every line of the rendered text is newline-free, the first line starts
/// with a letter and the last ends with a dash or a digit.
proof fn lemma_all_lines_shape(h: Head, ss: Seq<Step>)
    ensures
        ({
            let lines = spec_all_lines(h, ss);
            &&& lines.len() == 5 + ss.len()
            &&& forall|i: int, j: int|
                0 <= i < lines.len() && 0 <= j < lines[i].len() ==> #[trigger] lines[i][j] != '\n'
            &&& lines[0].len() > 0
            &&& !is_space_char(lines[0][0])
            &&& lines.last().len() > 0
            &&& !is_space_char(lines.last().last())
        }),
{
    let lines = spec_all_lines(h, ss);
    proof_strlit_facts();
    lemma_head_text_no_newline(h);
    assert forall|i: int, j: int|
        0 <= i < lines.len() && 0 <= j < lines[i].len() implies #[trigger] lines[i][j]
        != '\n' by {
        if i >= 5 {
            assert(lines[i] == spec_step_text(ss[i - 5]));
            lemma_step_text_no_newline(ss[i - 5]);
        }
    }
    if ss.len() > 0 {
        assert(lines.last() == spec_step_text(ss.last()));
        lemma_step_text_no_newline(ss.last());
    }
}

/// The concrete contents of the fixed text lines.
proof fn proof_strlit_facts()
    ensures
        "Wait L | Wait R"@.len() == 15,
        "Wait L | Wait R"@[0] == 'W',
        forall|j: int| 0 <= j < 15 ==> #[trigger] "Wait L | Wait R"@[j] != '\n',
        "Quote | 1 2 3 4 5 6 7 8 | L R"@.len() == 29,
        forall|j: int| 0 <= j < 29 ==> #[trigger] "Quote | 1 2 3 4 5 6 7 8 | L R"@[j] != '\n',
        "-----------------------------"@.len() == 29,
        forall|j: int| 0 <= j < 29 ==> #[trigger] "-----------------------------"@[j] == '-',
        "Wait L | Wait R\n"@ == "Wait L | Wait R"@ + seq!['\n'],
        "Quote | 1 2 3 4 5 6 7 8 | L R\n"@ == "Quote | 1 2 3 4 5 6 7 8 | L R"@ + seq!['\n'],
        "-----------------------------\n"@ == "-----------------------------"@ + seq!['\n'],
        "\n"@ == seq!['\n'],
{
    reveal_strlit("Wait L | Wait R");
    reveal_strlit("Wait L | Wait R\n");
    reveal_strlit("Quote | 1 2 3 4 5 6 7 8 | L R");
    reveal_strlit("Quote | 1 2 3 4 5 6 7 8 | L R\n");
    reveal_strlit("-----------------------------");
    reveal_strlit("-----------------------------\n");
    reveal_strlit("\n");
    assert("Wait L | Wait R\n"@ =~= "Wait L | Wait R"@ + seq!['\n']);
    assert("Quote | 1 2 3 4 5 6 7 8 | L R\n"@ =~= "Quote | 1 2 3 4 5 6 7 8 | L R"@ + seq!['\n']);
    assert("-----------------------------\n"@ =~= "-----------------------------"@ + seq!['\n']);
    assert("\n"@ =~= seq!['\n']);
}

/// Round trip, program to text and back: parsing the rendered text yields
/// the same header and the same steps, for every program.
#[verifier::rlimit(100)]
#[verifier::spinoff_prover]
pub proof fn lemma_program_text_round_trip(h: Head, ss: Seq<Step>)
    ensures
        spec_program_from_text(spec_program_text(h, ss)) == Ok::<(Head, Seq<Step>), CodecError>(
            (h, ss),
        ),
{
    let lines = spec_all_lines(h, ss);
    lemma_all_lines_shape(h, ss);
    lemma_join_term_as_sep(lines, '\n');
    lemma_join_sep_ends(lines, '\n');
    let joined = join_sep(lines, '\n');
    assert(spec_program_text(h, ss) =~= Seq::<char>::empty() + joined + seq!['\n']);
    lemma_trim_exact(Seq::<char>::empty(), joined, seq!['\n']);
    lemma_split_join_sep(lines, '\n');
    assert(spec_split(spec_trim(spec_program_text(h, ss)), '\n') == lines);
    assert(lines[1] == spec_head_text(h));
    lemma_head_text_round_trip(h);
    assert(lines.skip(5) =~~= spec_step_text_lines(ss));
    lemma_step_lines_parse(ss);
}

impl Program {
    /// Decodes a program from raw binary bytes: the first 22 bytes as the
    /// header, the rest as a sentinel-terminated step sequence.  Fails when
    /// the header byte range is absent.
    pub fn from_bytes(data: &[u8]) -> (r: Result<Program, CodecError>)
        ensures
            r is Ok <==> data@.len() >= 22,
            r is Err ==> r->Err_0 == CodecError::Structure,
            r is Ok ==> r->Ok_0.head == spec_head_from_bytes(data@) && r->Ok_0.steps@
                == spec_decode_steps(data@.skip(22)) && r->Ok_0.read_bin == true,
    {
        if data.len() < 22 {
            return Err(CodecError::Structure);
        }
        let head = Head::from_bytes(data);
        let (_, region) = data.split_at(22);
        let steps = Step::vec_from_bytes(region);
        Ok(Program { head, steps, read_bin: true })
    }

    /// Encodes the program into its padded 1422-byte binary image: header
    /// bytes, each step's bytes in order, then zero padding.  Fails, writing
    /// nothing, when header and steps alone would exceed the ceiling.
    pub fn encode_to_binary(&self) -> (r: Result<Vec<u8>, CodecError>)
        ensures
            r is Ok <==> 22 + 14 * self.steps@.len() <= 1422,
            r is Ok ==> r->Ok_0@ == spec_binary_image(self.head, self.steps@) && r->Ok_0@.len()
                == 1422,
            r is Err ==> r->Err_0 == CodecError::SizeCeiling,
    {
        let mut out = self.head.to_bytes();
        let mut i: usize = 0;
        proof {
            assert(self.steps@.take(0) =~= Seq::empty());
            assert(out@ =~= spec_head_bytes(self.head) + spec_steps_bytes(self.steps@.take(0)));
        }
        while i < self.steps.len()
            invariant
                i <= self.steps@.len(),
                out@ == spec_head_bytes(self.head) + spec_steps_bytes(self.steps@.take(i as int)),
            decreases self.steps@.len() - i,
        {
            let mut sb = self.steps[i].to_bytes();
            out.append(&mut sb);
            proof {
                lemma_steps_bytes_push(self.steps@.take(i as int), self.steps@[i as int]);
                assert(self.steps@.take(i + 1) =~= self.steps@.take(i as int).push(
                    self.steps@[i as int],
                ));
                assert(out@ =~= spec_head_bytes(self.head) + spec_steps_bytes(
                    self.steps@.take(i + 1),
                ));
            }
            i = i + 1;
        }
        proof {
            assert(self.steps@.take(self.steps@.len() as int) =~= self.steps@);
            lemma_steps_bytes_len(self.steps@);
        }
        if out.len() > BINARY_CEILING {
            return Err(CodecError::SizeCeiling);
        }
        zero_pad_to(&mut out, BINARY_CEILING);
        Ok(out)
    }

    /// Parses a program from text: line 1 is the header, lines from 5 onward
    /// are the steps.  The program remembers that it came from text.
    pub fn from_text(s: &str) -> (r: Result<Program, CodecError>)
        ensures
            ({
                let d = spec_program_from_text(s@);
                match r {
                    Ok(p) => d == Ok::<(Head, Seq<Step>), CodecError>((p.head, p.steps@))
                        && p.read_bin == false,
                    Err(e) => d == Err::<(Head, Seq<Step>), CodecError>(e),
                }
            }),
    {
        let t = trim_str(s);
        let lines = split_char(t, '\n');
        if lines.len() < 5 {
            return Err(CodecError::Structure);
        }
        proof {
            assert(lines.deep_view()[1] == lines@[1]@);
        }
        let head = match Head::from_string(lines[1].as_str()) {
            Ok(h) => h,
            Err(e) => {
                return Err(e);
            },
        };
        let (_, rest) = lines.as_slice().split_at(5);
        proof {
            assert(rest.deep_view() =~~= lines.deep_view().skip(5));
        }
        let steps = match Step::vec_from_string(rest) {
            Ok(v) => v,
            Err(e) => {
                return Err(e);
            },
        };
        Ok(Program { head, steps, read_bin: false })
    }

    /// Renders the program as its text file: caption, header line, blank
    /// line, caption, dash line, then one line per step, each
    /// newline-terminated.
    pub fn encode_to_text(&self) -> (r: String)
        ensures
            r@ == spec_program_text(self.head, self.steps@),
    {
        let ghost lines = spec_all_lines(self.head, self.steps@);
        let mut out = String::from_str("Wait L | Wait R\n");
        out.append(self.head.to_string().as_str());
        out.append("\n");
        out.append("\n");
        out.append("Quote | 1 2 3 4 5 6 7 8 | L R\n");
        out.append("-----------------------------\n");
        proof {
            proof_strlit_facts();
            let l5 = lines.take(5);
            let l4 = seq![
                spec_head_text(self.head),
                Seq::<char>::empty(),
                "Quote | 1 2 3 4 5 6 7 8 | L R"@,
                "-----------------------------"@,
            ];
            let l3 = seq![
                Seq::<char>::empty(),
                "Quote | 1 2 3 4 5 6 7 8 | L R"@,
                "-----------------------------"@,
            ];
            let l2 = seq!["Quote | 1 2 3 4 5 6 7 8 | L R"@, "-----------------------------"@];
            let l1 = seq!["-----------------------------"@];
            assert(l5.drop_first() =~~= l4);
            assert(l4.drop_first() =~~= l3);
            assert(l3.drop_first() =~~= l2);
            assert(l2.drop_first() =~~= l1);
            assert(l1.drop_first() =~~= Seq::<Seq<char>>::empty());
            assert(join_term(Seq::<Seq<char>>::empty(), '\n') == Seq::<char>::empty());
            assert(join_term(l1, '\n') == l1[0] + seq!['\n'] + join_term(
                Seq::<Seq<char>>::empty(),
                '\n',
            ));
            assert(join_term(l2, '\n') == l2[0] + seq!['\n'] + join_term(l1, '\n'));
            assert(join_term(l3, '\n') == l3[0] + seq!['\n'] + join_term(l2, '\n'));
            assert(join_term(l4, '\n') == l4[0] + seq!['\n'] + join_term(l3, '\n'));
            assert(join_term(l5, '\n') == l5[0] + seq!['\n'] + join_term(l4, '\n'));
            assert(out@ =~= join_term(l5, '\n'));
        }
        let mut i: usize = 0;
        while i < self.steps.len()
            invariant
                i <= self.steps@.len(),
                lines == spec_all_lines(self.head, self.steps@),
                lines.len() == 5 + self.steps@.len(),
                out@ == join_term(lines.take(5 + i as int), '\n'),
            decreases self.steps@.len() - i,
        {
            let line = self.steps[i].to_string();
            out.append(line.as_str());
            out.append("\n");
            proof {
                proof_strlit_facts();
                let k = 5 + i as int;
                assert(lines[k] == spec_step_text(self.steps@[i as int]));
                assert(lines.take(k + 1) =~~= lines.take(k) + seq![lines[k]]);
                lemma_join_term_append(lines.take(k), seq![lines[k]], '\n');
                assert(seq![lines[k]].drop_first() =~~= Seq::<Seq<char>>::empty());
                assert(join_term(Seq::<Seq<char>>::empty(), '\n') == Seq::<char>::empty());
                assert(join_term(seq![lines[k]], '\n') =~= lines[k] + seq!['\n']);
                assert(out@ =~= join_term(lines.take(k + 1), '\n'));
            }
            i = i + 1;
        }
        proof {
            assert(lines.take(5 + self.steps@.len() as int) =~~= lines);
        }
        out
    }

    /// The extension of the output file: a binary-born program converts to
    /// text, a text-born one to binary.
    pub fn output_extension(&self) -> (r: &'static str)
        ensures
            self.read_bin ==> r@ == "txt"@,
            !self.read_bin ==> r@ == "prg"@,
    {
        if self.read_bin {
            "txt"
        } else {
            "prg"
        }
    }

    /// Decodes a program from raw file contents, detecting the format: bytes
    /// that are valid UTF-8 are decoded as text, anything else as binary.
    pub fn decode(data: &[u8]) -> (r: Result<Program, CodecError>)
        ensures
            valid_utf8(data@) ==> ({
                let d = spec_program_from_text(decode_utf8(data@));
                match r {
                    Ok(p) => d == Ok::<(Head, Seq<Step>), CodecError>((p.head, p.steps@))
                        && p.read_bin == false,
                    Err(e) => d == Err::<(Head, Seq<Step>), CodecError>(e),
                }
            }),
            !valid_utf8(data@) ==> ({
                &&& r is Ok <==> data@.len() >= 22
                &&& (r is Err ==> r->Err_0 == CodecError::Structure)
                &&& (r is Ok ==> r->Ok_0.head == spec_head_from_bytes(data@) && r->Ok_0.steps@
                    == spec_decode_steps(data@.skip(22)) && r->Ok_0.read_bin == true)
            }),
    {
        match bytes_as_str(data) {
            Some(s) => {
                proof {
                    encode_utf8_decode_utf8(s@);
                }
                Program::from_text(s)
            },
            None => Program::from_bytes(data),
        }
    }
}

/// Relies on core::str::from_utf8: it returns `Ok` exactly on valid UTF-8
/// input, viewing the same bytes as a string.
#[verifier::external_body]
fn bytes_as_str(data: &[u8]) -> (r: Option<&str>)
    ensures
        r is Some <==> valid_utf8(data@),
        r is Some ==> encode_utf8(r->0@) == data@,
{
    core::str::from_utf8(data).ok()
}

} // verus!
