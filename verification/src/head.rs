//! The program header: two 16-bit delay fields in a fixed 22-byte binary
//! slot, or one `|`-separated text line.

use vstd::prelude::*;
use vstd::string::*;

use crate::error::CodecError;
use crate::text::{
    append_center, center_pad, dec_digits, is_space_char, lemma_dec_digits_ok,
    lemma_dec_digits_plain, lemma_digit_plain, lemma_split_no_sep, lemma_split_sep_append,
    lemma_trim_exact, parse_u16, spaces, spec_parse_u16, spec_split, spec_trim, split_char,
    trim_str, u16_to_dec,
};
use crate::wire::{hi_byte, lo_byte, read_u16, u16_le, write_u16, zero_pad_to};

verus! {

/// The fixed 22-byte program header.  Only bytes 10..14 carry data; byte 0 is
/// a fixed format marker and the rest of the slot is reserved as zero.
#[derive(Debug, Clone, Copy, PartialEq, Eq, Structural)]
pub struct Head {
    /// Delay for the left actuator bank, in its raw 16-bit unit.
    pub wait_l: u16,
    /// Delay for the right actuator bank, in its raw 16-bit unit.
    pub wait_r: u16,
}

/// The 22-byte binary image of a header: marker byte 1, `wait_l` at 10..12,
/// `wait_r` at 12..14, both little-endian, zero everywhere else.
pub open spec fn spec_head_bytes(h: Head) -> Seq<u8> {
    Seq::new(
        22,
        |i: int|
            if i == 0 {
                1u8
            } else if i == 10 {
                lo_byte(h.wait_l)
            } else if i == 11 {
                hi_byte(h.wait_l)
            } else if i == 12 {
                lo_byte(h.wait_r)
            } else if i == 13 {
                hi_byte(h.wait_r)
            } else {
                0u8
            },
    )
}

/// The header read back from a 22-byte binary slot: `wait_l` from bytes
/// 10..12, `wait_r` from bytes 12..14, all other bytes ignored.
pub open spec fn spec_head_from_bytes(b: Seq<u8>) -> Head
    recommends
        b.len() >= 14,
{
    Head { wait_l: u16_le(b[10], b[11]), wait_r: u16_le(b[12], b[13]) }
}

/// The header's text line: both fields rendered as decimal, center-padded to
/// width 7, separated by `|`.
pub open spec fn spec_head_text(h: Head) -> Seq<char> {
    center_pad(dec_digits(h.wait_l as int), 7) + seq!['|'] + center_pad(
        dec_digits(h.wait_r as int),
        7,
    )
}

/// The header parsed from a text line: the trimmed line is cut at `|`, and
/// the first two pieces, each trimmed, must parse as unsigned 16-bit
/// decimals, in order `wait_l`, `wait_r`.  Anything else is a parse error.
pub open spec fn spec_head_from_text(line: Seq<char>) -> Result<Head, CodecError> {
    let v = spec_split(spec_trim(line), '|');
    if v.len() < 2 {
        Err(CodecError::Parse)
    } else {
        match (spec_parse_u16(spec_trim(v[0])), spec_parse_u16(spec_trim(v[1]))) {
            (Some(l), Some(r)) => Ok(Head { wait_l: l, wait_r: r }),
            _ => Err(CodecError::Parse),
        }
    }
}

/// A rendered header line never contains a newline, so it stays one line of
/// the text file.
#[verifier::rlimit(100)]
#[verifier::spinoff_prover]
pub proof fn lemma_head_text_no_newline(h: Head)
    ensures
        spec_head_text(h).len() > 0,
        forall|i: int|
            0 <= i < spec_head_text(h).len() ==> #[trigger] spec_head_text(h)[i] != '\n',
{
    let dl = dec_digits(h.wait_l as int);
    let dr = dec_digits(h.wait_r as int);
    lemma_dec_digits_plain(h.wait_l as int);
    lemma_dec_digits_plain(h.wait_r as int);
    assert(center_pad(dl, 7).len() > 0);
    assert forall|i: int| 0 <= i < center_pad(dl, 7).len() implies #[trigger] center_pad(dl, 7)[i]
        != '\n' by {}
    assert forall|i: int| 0 <= i < center_pad(dr, 7).len() implies #[trigger] center_pad(dr, 7)[i]
        != '\n' by {}
}

/// Round trip, header to text and back: parsing the rendered line yields the
/// header again for every header value.
pub proof fn lemma_head_text_round_trip(h: Head)
    ensures
        spec_head_from_text(spec_head_text(h)) == Ok::<Head, CodecError>(h),
{
    let dl = dec_digits(h.wait_l as int);
    let dr = dec_digits(h.wait_r as int);
    lemma_dec_digits_ok(h.wait_l as int);
    lemma_dec_digits_ok(h.wait_r as int);
    assert forall|i: int| 0 <= i < dl.len() implies dl[i] != '|' && !is_space_char(dl[i]) by {
        lemma_digit_plain(dl[i]);
    }
    assert forall|i: int| 0 <= i < dr.len() implies dr[i] != '|' && !is_space_char(dr[i]) by {
        lemma_digit_plain(dr[i]);
    }
    let line = spec_head_text(h);
    let a1: int = if dl.len() >= 7 {
        0
    } else {
        (7 - dl.len()) / 2
    };
    let a2: int = if dl.len() >= 7 {
        0
    } else {
        7 - dl.len() - (7 - dl.len()) / 2
    };
    let b1: int = if dr.len() >= 7 {
        0
    } else {
        (7 - dr.len()) / 2
    };
    let b2: int = if dr.len() >= 7 {
        0
    } else {
        7 - dr.len() - (7 - dr.len()) / 2
    };
    assert(center_pad(dl, 7) =~= spaces(a1) + dl + spaces(a2));
    assert(center_pad(dr, 7) =~= spaces(b1) + dr + spaces(b2));
    let a = dl + spaces(a2);
    let b = spaces(b1) + dr;
    let core = a + seq!['|'] + b;
    assert(line =~= spaces(a1) + core + spaces(b2));
    assert(core[0] == dl[0]);
    assert(core.last() == dr.last());
    lemma_trim_exact(spaces(a1), core, spaces(b2));
    lemma_split_sep_append(a, b, '|');
    lemma_split_no_sep(b, '|');
    assert(spec_split(spec_trim(line), '|') =~~= seq![a, b]);
    assert(a =~= Seq::<char>::empty() + dl + spaces(a2));
    lemma_trim_exact(Seq::<char>::empty(), dl, spaces(a2));
    assert(b =~= spaces(b1) + dr + Seq::<char>::empty());
    lemma_trim_exact(spaces(b1), dr, Seq::<char>::empty());
    assert(spec_parse_u16(dl) == Some(h.wait_l));
    assert(spec_parse_u16(dr) == Some(h.wait_r));
}

impl Head {
    /// Decodes the header from the first 22 bytes of `slice`.
    pub fn from_bytes(slice: &[u8]) -> (h: Head)
        requires
            slice@.len() >= 22,
        ensures
            h == spec_head_from_bytes(slice@),
    {
        Head { wait_l: read_u16(&slice[10..12]), wait_r: read_u16(&slice[12..14]) }
    }

    /// Encodes the header into its fixed 22-byte binary image.
    pub fn to_bytes(&self) -> (r: Vec<u8>)
        ensures
            r@ == spec_head_bytes(*self),
    {
        let mut out: Vec<u8> = Vec::new();
        out.push(1);
        zero_pad_to(&mut out, 14);
        write_u16(self.wait_l, &mut out, 10);
        write_u16(self.wait_r, &mut out, 12);
        zero_pad_to(&mut out, 22);
        assert(out@ =~= spec_head_bytes(*self));
        out
    }

    /// Parses the header from its text line.
    pub fn from_string(s: &str) -> (r: Result<Head, CodecError>)
        ensures
            r == spec_head_from_text(s@),
    {
        let t = trim_str(s);
        let parts = split_char(t, '|');
        if parts.len() < 2 {
            return Err(CodecError::Parse);
        }
        proof {
            assert(parts.deep_view()[0] == parts@[0]@);
            assert(parts.deep_view()[1] == parts@[1]@);
        }
        let wl = parse_u16(trim_str(parts[0].as_str()));
        let wr = parse_u16(trim_str(parts[1].as_str()));
        match (wl, wr) {
            (Some(l), Some(r)) => Ok(Head { wait_l: l, wait_r: r }),
            _ => Err(CodecError::Parse),
        }
    }

    /// Renders the header as its text line.
    pub fn to_string(&self) -> (r: String)
        ensures
            r@ == spec_head_text(*self),
    {
        let mut out = String::new();
        let dl = u16_to_dec(self.wait_l);
        append_center(&mut out, dl.as_str(), 7);
        out.append("|");
        let dr = u16_to_dec(self.wait_r);
        append_center(&mut out, dr.as_str(), 7);
        proof {
            reveal_strlit("|");
            assert(out@ =~= spec_head_text(*self));
        }
        out
    }
}

} // verus!
