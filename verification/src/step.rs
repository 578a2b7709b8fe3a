//! One scheduled actuation event: a 14-byte binary record, or one text line.
//! A record whose `quote` is 0 is the end-of-sequence sentinel and is never a
//! step of the program.

use vstd::prelude::*;
use vstd::seq_lib::lemma_concat_associative;
use vstd::string::*;

use crate::error::CodecError;
use crate::text::{
    append_right, dec_digits, is_space_char, lemma_dec_digits_plain,
    lemma_split_no_sep, lemma_split_sep_append, lemma_trim_exact, parse_u16, parse_u8,
    right_align, spaces, spec_parse_u16, spec_parse_u8, spec_split, spec_trim, split_char,
    trim_str, u16_to_dec,
};
use crate::wire::{hi_byte, lo_byte, read_u16, u16_le};

verus! {

/// One step: a 16-bit position value, eight per-actuator offsets and the two
/// bank offsets.  Bytes 2..4 of its binary slot are reserved as zero.
#[derive(Debug, Clone, Copy, PartialEq, Eq, Structural)]
pub struct Step {
    /// Machine position at which the step fires; 0 is reserved as the
    /// end-of-sequence sentinel.
    pub quote: u16,
    pub p1: u8,
    pub p2: u8,
    pub p3: u8,
    pub p4: u8,
    pub p5: u8,
    pub p6: u8,
    pub p7: u8,
    pub p8: u8,
    /// Offset of the left actuator bank.
    pub l: u8,
    /// Offset of the right actuator bank.
    pub r: u8,
}

/// The 14-byte binary image of a step: `quote` little-endian at 0..2, two
/// reserved zero bytes, `p1..p8` at 4..12, `l` at 12 and `r` at 13.
pub open spec fn spec_step_bytes(s: Step) -> Seq<u8> {
    Seq::new(
        14,
        |i: int|
            if i == 0 {
                lo_byte(s.quote)
            } else if i == 1 {
                hi_byte(s.quote)
            } else if i == 4 {
                s.p1
            } else if i == 5 {
                s.p2
            } else if i == 6 {
                s.p3
            } else if i == 7 {
                s.p4
            } else if i == 8 {
                s.p5
            } else if i == 9 {
                s.p6
            } else if i == 10 {
                s.p7
            } else if i == 11 {
                s.p8
            } else if i == 12 {
                s.l
            } else if i == 13 {
                s.r
            } else {
                0u8
            },
    )
}

/// The step read back from the first 14 bytes of a binary slot; the reserved
/// bytes 2..4 are ignored.
pub open spec fn spec_step_from_bytes(b: Seq<u8>) -> Step
    recommends
        b.len() >= 14,
{
    Step {
        quote: u16_le(b[0], b[1]),
        p1: b[4],
        p2: b[5],
        p3: b[6],
        p4: b[7],
        p5: b[8],
        p6: b[9],
        p7: b[10],
        p8: b[11],
        l: b[12],
        r: b[13],
    }
}

/// The steps decoded from consecutive 14-byte records at the start of `b`.
/// Decoding stops, excluding the terminating record, at the first record
/// whose `quote` is 0; a trailing chunk shorter than 14 bytes also terminates
/// decoding, producing no step.
pub open spec fn spec_decode_steps(b: Seq<u8>) -> Seq<Step>
    decreases b.len(),
{
    if b.len() < 14 {
        Seq::empty()
    } else {
        let s = spec_step_from_bytes(b);
        if s.quote == 0 {
            Seq::empty()
        } else {
            seq![s] + spec_decode_steps(b.skip(14))
        }
    }
}

/// A record whose `quote` is 0 at chunk index `k` ends the decoded sequence
/// there: whatever bytes follow that record, decoding is the same as on the
/// bytes before it, and at most `k` steps come out.
pub proof fn lemma_sentinel_truncation(b: Seq<u8>, k: nat)
    requires
        14 * k + 14 <= b.len(),
        u16_le(b[14 * (k as int)], b[14 * (k as int) + 1]) == 0,
    ensures
        spec_decode_steps(b) == spec_decode_steps(b.take(14 * (k as int))),
        spec_decode_steps(b).len() <= k,
    decreases k,
{
    if k == 0 {
        assert(spec_step_from_bytes(b).quote == 0);
        assert(spec_decode_steps(b.take(0)) =~= Seq::empty());
    } else {
        let s = spec_step_from_bytes(b);
        let front = b.take(14 * (k as int));
        assert(front.len() == 14 * k >= 14);
        assert(spec_step_from_bytes(front) == s) by {
            assert(front[0] == b[0] && front[1] == b[1] && front[4] == b[4] && front[5] == b[5]
                && front[6] == b[6] && front[7] == b[7] && front[8] == b[8] && front[9] == b[9]
                && front[10] == b[10] && front[11] == b[11] && front[12] == b[12] && front[13]
                == b[13]);
        }
        if s.quote == 0 {
        } else {
            let rest = b.skip(14);
            let j: int = 14 * (k as int - 1);
            assert(rest[j] == b[14 * (k as int)] && rest[j + 1] == b[14 * (k as int) + 1]);
            lemma_sentinel_truncation(rest, (k - 1) as nat);
            assert(front.skip(14) =~= rest.take(j));
        }
    }
}

/// The middle field group of a step's text line: the eight actuator values,
/// rendered as decimal and separated by single spaces.
pub open spec fn spec_step_group_text(s: Step) -> Seq<char> {
    dec_digits(s.p1 as int) + seq![' '] + dec_digits(s.p2 as int) + seq![' '] + dec_digits(
        s.p3 as int,
    ) + seq![' '] + dec_digits(s.p4 as int) + seq![' '] + dec_digits(s.p5 as int) + seq![' ']
        + dec_digits(s.p6 as int) + seq![' '] + dec_digits(s.p7 as int) + seq![' '] + dec_digits(
        s.p8 as int,
    )
}

/// The last field group of a step's text line: the two bank offsets,
/// rendered as decimal and separated by one space.
pub open spec fn spec_step_tail_text(s: Step) -> Seq<char> {
    dec_digits(s.l as int) + seq![' '] + dec_digits(s.r as int)
}

/// The step's text line: quote right-aligned to width 5, then the eight
/// actuator values space-separated, then the two bank offsets, the three
/// groups separated by `" | "`.
pub open spec fn spec_step_text(s: Step) -> Seq<char> {
    right_align(dec_digits(s.quote as int), 5) + seq![' ', '|', ' '] + spec_step_group_text(s)
        + seq![' ', '|', ' '] + spec_step_tail_text(s)
}

/// The step parsed from a text line: the trimmed line is cut at `|` into a
/// quote field, a group of eight actuator bytes and a group of two offset
/// bytes; the quote field is trimmed and parsed as an unsigned 16-bit
/// decimal, the group fields are trimmed, cut at single spaces and parsed as
/// unsigned 8-bit decimals.  A missing group or a failing field is a parse
/// error.
pub open spec fn spec_step_from_text(line: Seq<char>) -> Result<Step, CodecError> {
    let v = spec_split(spec_trim(line), '|');
    if v.len() < 3 {
        Err(CodecError::Parse)
    } else {
        let ps = spec_split(spec_trim(v[1]), ' ');
        let os = spec_split(spec_trim(v[2]), ' ');
        if ps.len() < 8 || os.len() < 2 {
            Err(CodecError::Parse)
        } else {
            let q = spec_parse_u16(spec_trim(v[0]));
            if q is Some && spec_parse_u8(ps[0]) is Some && spec_parse_u8(ps[1]) is Some
                && spec_parse_u8(ps[2]) is Some && spec_parse_u8(ps[3]) is Some && spec_parse_u8(
                ps[4],
            ) is Some && spec_parse_u8(ps[5]) is Some && spec_parse_u8(ps[6]) is Some
                && spec_parse_u8(ps[7]) is Some && spec_parse_u8(os[0]) is Some && spec_parse_u8(
                os[1],
            ) is Some {
                Ok(
                    Step {
                        quote: q->Some_0,
                        p1: spec_parse_u8(ps[0])->Some_0,
                        p2: spec_parse_u8(ps[1])->Some_0,
                        p3: spec_parse_u8(ps[2])->Some_0,
                        p4: spec_parse_u8(ps[3])->Some_0,
                        p5: spec_parse_u8(ps[4])->Some_0,
                        p6: spec_parse_u8(ps[5])->Some_0,
                        p7: spec_parse_u8(ps[6])->Some_0,
                        p8: spec_parse_u8(ps[7])->Some_0,
                        l: spec_parse_u8(os[0])->Some_0,
                        r: spec_parse_u8(os[1])->Some_0,
                    },
                )
            } else {
                Err(CodecError::Parse)
            }
        }
    }
}

/// Splitting a rendered actuator group at spaces yields the eight digit
/// texts, in order.
#[verifier::rlimit(100)]
#[verifier::spinoff_prover]
proof fn lemma_group_split(s: Step)
    ensures
        ({
            let ps = spec_split(spec_step_group_text(s), ' ');
            &&& ps.len() == 8
            &&& ps[0] == dec_digits(s.p1 as int)
            &&& ps[1] == dec_digits(s.p2 as int)
            &&& ps[2] == dec_digits(s.p3 as int)
            &&& ps[3] == dec_digits(s.p4 as int)
            &&& ps[4] == dec_digits(s.p5 as int)
            &&& ps[5] == dec_digits(s.p6 as int)
            &&& ps[6] == dec_digits(s.p7 as int)
            &&& ps[7] == dec_digits(s.p8 as int)
        }),
{
    let d1 = dec_digits(s.p1 as int);
    let d2 = dec_digits(s.p2 as int);
    let d3 = dec_digits(s.p3 as int);
    let d4 = dec_digits(s.p4 as int);
    let d5 = dec_digits(s.p5 as int);
    let d6 = dec_digits(s.p6 as int);
    let d7 = dec_digits(s.p7 as int);
    let d8 = dec_digits(s.p8 as int);
    lemma_dec_digits_plain(s.p1 as int);
    lemma_dec_digits_plain(s.p2 as int);
    lemma_dec_digits_plain(s.p3 as int);
    lemma_dec_digits_plain(s.p4 as int);
    lemma_dec_digits_plain(s.p5 as int);
    lemma_dec_digits_plain(s.p6 as int);
    lemma_dec_digits_plain(s.p7 as int);
    lemma_dec_digits_plain(s.p8 as int);
    let sp = seq![' '];
    let g8 = d8;
    let g7 = d7 + sp + g8;
    let g6 = d6 + sp + g7;
    let g5 = d5 + sp + g6;
    let g4 = d4 + sp + g5;
    let g3 = d3 + sp + g4;
    let g2 = d2 + sp + g3;
    let g1 = d1 + sp + g2;
    let c1 = d1 + sp;
    let c2 = (c1 + d2) + sp;
    let c3 = (c2 + d3) + sp;
    let c4 = (c3 + d4) + sp;
    let c5 = (c4 + d5) + sp;
    let c6 = (c5 + d6) + sp;
    let c7 = (c6 + d7) + sp;
    assert(spec_step_group_text(s) =~= c7 + d8);
    lemma_concat_associative(c6, d7, sp);
    lemma_concat_associative(c6, d7 + sp, d8);
    assert(c7 + d8 == c6 + g7);
    lemma_concat_associative(c5, d6, sp);
    lemma_concat_associative(c5, d6 + sp, g7);
    assert(c6 + g7 == c5 + g6);
    lemma_concat_associative(c4, d5, sp);
    lemma_concat_associative(c4, d5 + sp, g6);
    assert(c5 + g6 == c4 + g5);
    lemma_concat_associative(c3, d4, sp);
    lemma_concat_associative(c3, d4 + sp, g5);
    assert(c4 + g5 == c3 + g4);
    lemma_concat_associative(c2, d3, sp);
    lemma_concat_associative(c2, d3 + sp, g4);
    assert(c3 + g4 == c2 + g3);
    lemma_concat_associative(c1, d2, sp);
    lemma_concat_associative(c1, d2 + sp, g3);
    assert(c2 + g3 == c1 + g2);
    assert(spec_step_group_text(s) == g1);
    lemma_split_no_sep(g8, ' ');
    lemma_split_sep_append(d7, g8, ' ');
    lemma_split_sep_append(d6, g7, ' ');
    lemma_split_sep_append(d5, g6, ' ');
    lemma_split_sep_append(d4, g5, ' ');
    lemma_split_sep_append(d3, g4, ' ');
    lemma_split_sep_append(d2, g3, ' ');
    lemma_split_sep_append(d1, g2, ' ');
    let s8 = spec_split(g8, ' ');
    let s7 = spec_split(g7, ' ');
    let s6 = spec_split(g6, ' ');
    let s5 = spec_split(g5, ' ');
    let s4 = spec_split(g4, ' ');
    let s3 = spec_split(g3, ' ');
    let s2 = spec_split(g2, ' ');
    let s1 = spec_split(g1, ' ');
    assert(s8.len() == 1 && s8[0] == d8);
    assert(s7.len() == 2 && s7[0] == d7 && s7[1] == d8);
    assert(s6.len() == 3 && s6[0] == d6 && s6[1] == d7 && s6[2] == d8);
    assert(s5.len() == 4 && s5[0] == d5 && s5[1] == d6 && s5[2] == d7 && s5[3] == d8);
    assert(s4.len() == 5 && s4[0] == d4 && s4[1] == d5 && s4[2] == d6 && s4[3] == d7 && s4[4]
        == d8);
    assert(s3.len() == 6 && s3[0] == d3 && s3[1] == d4 && s3[2] == d5 && s3[3] == d6 && s3[4] == d7
        && s3[5] == d8);
    assert(s2.len() == 7 && s2[0] == d2 && s2[1] == d3 && s2[2] == d4 && s2[3] == d5 && s2[4] == d6
        && s2[5] == d7 && s2[6] == d8);
    assert(s1.len() == 8 && s1[0] == d1 && s1[1] == d2 && s1[2] == d3 && s1[3] == d4 && s1[4] == d5
        && s1[5] == d6 && s1[6] == d7 && s1[7] == d8);
}

/// The trimmed step line splits at `|` into exactly the quote field, the
/// actuator group and the offset group, each already trimmed of its framing
/// spaces.
#[verifier::rlimit(100)]
#[verifier::spinoff_prover]
proof fn lemma_step_text_fields(s: Step)
    ensures
        ({
            let v = spec_split(spec_trim(spec_step_text(s)), '|');
            &&& v.len() == 3
            &&& spec_trim(v[0]) == dec_digits(s.quote as int)
            &&& spec_trim(v[1]) == spec_step_group_text(s)
            &&& spec_trim(v[2]) == spec_step_tail_text(s)
        }),
{
    let dq = dec_digits(s.quote as int);
    let grp = spec_step_group_text(s);
    let tail = spec_step_tail_text(s);
    lemma_dec_digits_plain(s.quote as int);
    lemma_dec_digits_plain(s.p1 as int);
    lemma_dec_digits_plain(s.p2 as int);
    lemma_dec_digits_plain(s.p3 as int);
    lemma_dec_digits_plain(s.p4 as int);
    lemma_dec_digits_plain(s.p5 as int);
    lemma_dec_digits_plain(s.p6 as int);
    lemma_dec_digits_plain(s.p7 as int);
    lemma_dec_digits_plain(s.p8 as int);
    lemma_dec_digits_plain(s.l as int);
    lemma_dec_digits_plain(s.r as int);
    let line = spec_step_text(s);
    let q1: int = if dq.len() >= 5 {
        0
    } else {
        5 - dq.len()
    };
    assert(right_align(dq, 5) =~= spaces(q1) + dq);
    let a = dq + seq![' '];
    let b = seq![' '] + grp + seq![' '];
    let c = seq![' '] + tail;
    let core = a + seq!['|'] + (b + seq!['|'] + c);
    assert(line =~= spaces(q1) + core + spaces(0));
    assert(core[0] == dq[0]);
    assert(core.last() == tail.last());
    assert(tail.last() == dec_digits(s.r as int).last());
    lemma_trim_exact(spaces(q1), core, spaces(0));
    lemma_split_sep_append(a, b + seq!['|'] + c, '|');
    lemma_split_sep_append(b, c, '|');
    lemma_split_no_sep(c, '|');
    let v = spec_split(spec_trim(line), '|');
    assert(v =~~= seq![a, b, c]);
    assert(a =~= Seq::<char>::empty() + dq + spaces(1));
    lemma_trim_exact(Seq::<char>::empty(), dq, spaces(1));
    assert(b =~= spaces(1) + grp + spaces(1));
    assert(grp[0] == dec_digits(s.p1 as int)[0]);
    assert(grp.last() == dec_digits(s.p8 as int).last());
    lemma_trim_exact(spaces(1), grp, spaces(1));
    assert(c =~= spaces(1) + tail + spaces(0));
    assert(tail[0] == dec_digits(s.l as int)[0]);
    lemma_trim_exact(spaces(1), tail, spaces(0));
}

/// A rendered step line never contains a newline, is never empty, and ends
/// with a digit, so it stays one line of the text file.
#[verifier::rlimit(100)]
#[verifier::spinoff_prover]
pub proof fn lemma_step_text_no_newline(s: Step)
    ensures
        spec_step_text(s).len() > 0,
        !is_space_char(spec_step_text(s).last()),
        forall|i: int|
            0 <= i < spec_step_text(s).len() ==> #[trigger] spec_step_text(s)[i] != '\n',
{
    let dq = dec_digits(s.quote as int);
    let grp = spec_step_group_text(s);
    let tail = spec_step_tail_text(s);
    lemma_dec_digits_plain(s.quote as int);
    lemma_dec_digits_plain(s.p1 as int);
    lemma_dec_digits_plain(s.p2 as int);
    lemma_dec_digits_plain(s.p3 as int);
    lemma_dec_digits_plain(s.p4 as int);
    lemma_dec_digits_plain(s.p5 as int);
    lemma_dec_digits_plain(s.p6 as int);
    lemma_dec_digits_plain(s.p7 as int);
    lemma_dec_digits_plain(s.p8 as int);
    lemma_dec_digits_plain(s.l as int);
    lemma_dec_digits_plain(s.r as int);
    assert forall|i: int| 0 <= i < grp.len() implies #[trigger] grp[i] != '\n' by {}
    assert forall|i: int| 0 <= i < tail.len() implies #[trigger] tail[i] != '\n' by {}
    assert forall|i: int|
        0 <= i < right_align(dq, 5).len() implies #[trigger] right_align(dq, 5)[i] != '\n' by {}
    assert(tail.last() == dec_digits(s.r as int).last());
    assert(spec_step_text(s).last() == tail.last());
    assert(!is_space_char(dec_digits(s.r as int).last()));
}

/// Round trip, step to text and back: parsing the rendered line yields the
/// step again for every step value, the sentinel value included.
#[verifier::rlimit(100)]
#[verifier::spinoff_prover]
pub proof fn lemma_step_text_round_trip(s: Step)
    ensures
        spec_step_from_text(spec_step_text(s)) == Ok::<Step, CodecError>(s),
{
    let dq = dec_digits(s.quote as int);
    let dl = dec_digits(s.l as int);
    let dr = dec_digits(s.r as int);
    lemma_dec_digits_plain(s.quote as int);
    lemma_dec_digits_plain(s.p1 as int);
    lemma_dec_digits_plain(s.p2 as int);
    lemma_dec_digits_plain(s.p3 as int);
    lemma_dec_digits_plain(s.p4 as int);
    lemma_dec_digits_plain(s.p5 as int);
    lemma_dec_digits_plain(s.p6 as int);
    lemma_dec_digits_plain(s.p7 as int);
    lemma_dec_digits_plain(s.p8 as int);
    lemma_dec_digits_plain(s.l as int);
    lemma_dec_digits_plain(s.r as int);
    lemma_step_text_fields(s);
    lemma_group_split(s);
    lemma_split_sep_append(dl, dr, ' ');
    lemma_split_no_sep(dr, ' ');
    assert(spec_step_tail_text(s) == dl + seq![' '] + dr);
    let v = spec_split(spec_trim(spec_step_text(s)), '|');
    let ps = spec_split(spec_trim(v[1]), ' ');
    let os = spec_split(spec_trim(v[2]), ' ');
    assert(os =~~= seq![dl, dr]);
    assert(ps.len() == 8 && os.len() == 2);
    assert(spec_parse_u16(dq) == Some(s.quote));
    assert(spec_parse_u8(ps[0]) == Some(s.p1));
    assert(spec_parse_u8(ps[1]) == Some(s.p2));
    assert(spec_parse_u8(ps[2]) == Some(s.p3));
    assert(spec_parse_u8(ps[3]) == Some(s.p4));
    assert(spec_parse_u8(ps[4]) == Some(s.p5));
    assert(spec_parse_u8(ps[5]) == Some(s.p6));
    assert(spec_parse_u8(ps[6]) == Some(s.p7));
    assert(spec_parse_u8(ps[7]) == Some(s.p8));
    assert(spec_parse_u8(os[0]) == Some(s.l));
    assert(spec_parse_u8(os[1]) == Some(s.r));
}

impl Step {
    /// Decodes a step from the first 14 bytes of `slice`.
    pub fn from_bytes(slice: &[u8]) -> (s: Step)
        requires
            slice@.len() >= 14,
        ensures
            s == spec_step_from_bytes(slice@),
    {
        Step {
            quote: read_u16(slice),
            p1: slice[4],
            p2: slice[5],
            p3: slice[6],
            p4: slice[7],
            p5: slice[8],
            p6: slice[9],
            p7: slice[10],
            p8: slice[11],
            l: slice[12],
            r: slice[13],
        }
    }

    /// Encodes the step into its fixed 14-byte binary image.
    pub fn to_bytes(&self) -> (r: Vec<u8>)
        ensures
            r@ == spec_step_bytes(*self),
    {
        let mut out: Vec<u8> = Vec::new();
        out.push((self.quote % 256) as u8);
        out.push((self.quote / 256) as u8);
        out.push(0);
        out.push(0);
        out.push(self.p1);
        out.push(self.p2);
        out.push(self.p3);
        out.push(self.p4);
        out.push(self.p5);
        out.push(self.p6);
        out.push(self.p7);
        out.push(self.p8);
        out.push(self.l);
        out.push(self.r);
        assert(out@ =~= spec_step_bytes(*self));
        out
    }

    /// Decodes the sentinel-terminated step sequence at the start of `slice`.
    pub fn vec_from_bytes(slice: &[u8]) -> (r: Vec<Step>)
        ensures
            r@ == spec_decode_steps(slice@),
    {
        let mut r: Vec<Step> = Vec::new();
        let mut off: usize = 0;
        proof {
            assert(slice@.skip(0) =~= slice@);
            assert(r@ + spec_decode_steps(slice@) =~= spec_decode_steps(slice@));
        }
        loop
            invariant
                off <= slice@.len(),
                spec_decode_steps(slice@) == r@ + spec_decode_steps(slice@.skip(off as int)),
            ensures
                r@ == spec_decode_steps(slice@),
            decreases slice@.len() - off,
        {
            if slice.len() - off < 14 {
                assert(spec_decode_steps(slice@.skip(off as int)) =~= Seq::empty());
                assert(r@ =~= r@ + spec_decode_steps(slice@.skip(off as int)));
                break ;
            }
            let s = Step::from_bytes(&slice[off..off + 14]);
            proof {
                assert(slice@.subrange(off as int, off + 14) =~= slice@.skip(off as int).take(14));
                assert(spec_step_from_bytes(slice@.subrange(off as int, off + 14))
                    == spec_step_from_bytes(slice@.skip(off as int)));
            }
            if s.quote == 0 {
                assert(spec_decode_steps(slice@.skip(off as int)) =~= Seq::empty());
                assert(r@ =~= r@ + spec_decode_steps(slice@.skip(off as int)));
                break ;
            }
            r.push(s);
            proof {
                assert(slice@.skip(off as int).skip(14) =~= slice@.skip(off + 14));
                assert(spec_decode_steps(slice@.skip(off as int)) == seq![s]
                    + spec_decode_steps(slice@.skip(off + 14)));
                assert(r@ + spec_decode_steps(slice@.skip(off + 14)) =~= spec_decode_steps(
                    slice@,
                ));
            }
            off = off + 14;
        }
        r
    }

    /// Parses a step from its text line.
    pub fn from_string(s: &str) -> (r: Result<Step, CodecError>)
        ensures
            r == spec_step_from_text(s@),
    {
        let t = trim_str(s);
        let parts = split_char(t, '|');
        if parts.len() < 3 {
            return Err(CodecError::Parse);
        }
        proof {
            assert(parts.deep_view()[0] == parts@[0]@);
            assert(parts.deep_view()[1] == parts@[1]@);
            assert(parts.deep_view()[2] == parts@[2]@);
        }
        let ps = split_char(trim_str(parts[1].as_str()), ' ');
        let os = split_char(trim_str(parts[2].as_str()), ' ');
        if ps.len() < 8 || os.len() < 2 {
            return Err(CodecError::Parse);
        }
        proof {
            assert(ps.deep_view()[0] == ps@[0]@);
            assert(ps.deep_view()[1] == ps@[1]@);
            assert(ps.deep_view()[2] == ps@[2]@);
            assert(ps.deep_view()[3] == ps@[3]@);
            assert(ps.deep_view()[4] == ps@[4]@);
            assert(ps.deep_view()[5] == ps@[5]@);
            assert(ps.deep_view()[6] == ps@[6]@);
            assert(ps.deep_view()[7] == ps@[7]@);
            assert(os.deep_view()[0] == os@[0]@);
            assert(os.deep_view()[1] == os@[1]@);
        }
        let quote = parse_u16(trim_str(parts[0].as_str()));
        let p1 = parse_u8(ps[0].as_str());
        let p2 = parse_u8(ps[1].as_str());
        let p3 = parse_u8(ps[2].as_str());
        let p4 = parse_u8(ps[3].as_str());
        let p5 = parse_u8(ps[4].as_str());
        let p6 = parse_u8(ps[5].as_str());
        let p7 = parse_u8(ps[6].as_str());
        let p8 = parse_u8(ps[7].as_str());
        let l = parse_u8(os[0].as_str());
        let r = parse_u8(os[1].as_str());
        if quote.is_some() && p1.is_some() && p2.is_some() && p3.is_some() && p4.is_some()
            && p5.is_some() && p6.is_some() && p7.is_some() && p8.is_some() && l.is_some()
            && r.is_some() {
            Ok(
                Step {
                    quote: quote.unwrap(),
                    p1: p1.unwrap(),
                    p2: p2.unwrap(),
                    p3: p3.unwrap(),
                    p4: p4.unwrap(),
                    p5: p5.unwrap(),
                    p6: p6.unwrap(),
                    p7: p7.unwrap(),
                    p8: p8.unwrap(),
                    l: l.unwrap(),
                    r: r.unwrap(),
                },
            )
        } else {
            Err(CodecError::Parse)
        }
    }

    /// Renders the step as its text line.
    pub fn to_string(&self) -> (r: String)
        ensures
            r@ == spec_step_text(*self),
    {
        let mut out = String::new();
        let q = u16_to_dec(self.quote);
        append_right(&mut out, q.as_str(), 5);
        out.append(" | ");
        let grp = self.group_to_string();
        out.append(grp.as_str());
        out.append(" | ");
        let tl = self.tail_to_string();
        out.append(tl.as_str());
        proof {
            reveal_strlit(" | ");
            assert(" | "@ =~= seq![' ', '|', ' ']);
            assert(Seq::<char>::empty() + right_align(dec_digits(self.quote as int), 5)
                =~= right_align(dec_digits(self.quote as int), 5));
            assert(out@ == spec_step_text(*self));
        }
        out
    }

    /// Renders the space-separated actuator group of the step's text line.
    fn group_to_string(&self) -> (r: String)
        ensures
            r@ == spec_step_group_text(*self),
    {
        let mut out = u16_to_dec(self.p1 as u16);
        out.append(" ");
        out.append(u16_to_dec(self.p2 as u16).as_str());
        out.append(" ");
        out.append(u16_to_dec(self.p3 as u16).as_str());
        out.append(" ");
        out.append(u16_to_dec(self.p4 as u16).as_str());
        out.append(" ");
        out.append(u16_to_dec(self.p5 as u16).as_str());
        out.append(" ");
        out.append(u16_to_dec(self.p6 as u16).as_str());
        out.append(" ");
        out.append(u16_to_dec(self.p7 as u16).as_str());
        out.append(" ");
        out.append(u16_to_dec(self.p8 as u16).as_str());
        proof {
            reveal_strlit(" ");
            assert(" "@ =~= seq![' ']);
            assert(out@ == spec_step_group_text(*self));
        }
        out
    }

    /// Renders the space-separated offset group of the step's text line.
    fn tail_to_string(&self) -> (r: String)
        ensures
            r@ == spec_step_tail_text(*self),
    {
        let mut out = u16_to_dec(self.l as u16);
        out.append(" ");
        out.append(u16_to_dec(self.r as u16).as_str());
        proof {
            reveal_strlit(" ");
            assert(" "@ =~= seq![' ']);
            assert(out@ == spec_step_tail_text(*self));
        }
        out
    }
}

/// The steps parsed from text lines, one line each, in order; `None` when
/// any line fails to parse.  The text form carries no sentinel: every given
/// line is a step.
pub open spec fn spec_steps_from_lines(lines: Seq<Seq<char>>) -> Option<Seq<Step>>
    decreases lines.len(),
{
    if lines.len() == 0 {
        Some(Seq::empty())
    } else {
        match (spec_step_from_text(lines[0]), spec_steps_from_lines(lines.drop_first())) {
            (Ok(s), Some(rest)) => Some(seq![s] + rest),
            _ => None,
        }
    }
}

impl Step {
    /// Parses a sequence of steps, one text line each.
    pub fn vec_from_string(v: &[String]) -> (r: Result<Vec<Step>, CodecError>)
        ensures
            r is Ok ==> spec_steps_from_lines(v.deep_view()) == Some(r->Ok_0@),
            r is Err ==> spec_steps_from_lines(v.deep_view()) is None && r->Err_0
                == CodecError::Parse,
    {
        let dv = Ghost(v.deep_view());
        let mut out: Vec<Step> = Vec::new();
        let mut i: usize = 0;
        proof {
            assert(dv@.skip(0) =~~= dv@);
        }
        while i < v.len()
            invariant
                i <= v@.len(),
                dv@ == v.deep_view(),
                dv@.len() == v@.len(),
                spec_steps_from_lines(dv@) == (match spec_steps_from_lines(dv@.skip(i as int)) {
                    Some(rest) => Some(out@ + rest),
                    None => None::<Seq<Step>>,
                }),
            decreases v@.len() - i,
        {
            proof {
                assert(dv@[i as int] == v@[i as int]@);
                assert(dv@.skip(i as int)[0] == dv@[i as int]);
                assert(dv@.skip(i as int).drop_first() =~~= dv@.skip(i + 1));
            }
            let s = match Step::from_string(v[i].as_str()) {
                Ok(s) => s,
                Err(e) => {
                    return Err(CodecError::Parse);
                },
            };
            out.push(s);
            proof {
                if spec_steps_from_lines(dv@.skip(i + 1)) is Some {
                    let rest = spec_steps_from_lines(dv@.skip(i + 1))->Some_0;
                    assert(out@ + rest =~= out@.drop_last() + (seq![s] + rest));
                }
            }
            i = i + 1;
        }
        proof {
            assert(dv@.skip(v@.len() as int) =~~= Seq::<Seq<char>>::empty());
            assert(spec_steps_from_lines(Seq::<Seq<char>>::empty()) == Some(Seq::<Step>::empty()));
            assert(out@ + Seq::<Step>::empty() =~= out@);
        }
        Ok(out)
    }
}

} // verus!
