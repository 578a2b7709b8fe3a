//! Output file naming: candidate names for collision avoidance.  Whether a
//! candidate is free on disk is the caller's business; this module only
//! computes the names.

use vstd::pervasive::unreached;
use vstd::prelude::*;
use vstd::string::*;

use crate::text::{dec_digits, u16_to_dec};

verus! {

/// Index of the first occurrence of `c` in `s`, or -1 when `c` is absent.
pub open spec fn spec_index_of(s: Seq<char>, c: char) -> int
    decreases s.len(),
{
    if s.len() == 0 {
        -1
    } else if s[0] == c {
        0
    } else {
        let r = spec_index_of(s.drop_first(), c);
        if r < 0 {
            -1
        } else {
            r + 1
        }
    }
}

/// Candidate `i` for a taken output name: `_i` inserted in front of the
/// first dot, so `foo.txt` becomes `foo_0.txt`, `foo_1.txt` and so on.
pub open spec fn spec_candidate_name(name: Seq<char>, i: int) -> Seq<char>
    recommends
        spec_index_of(name, '.') >= 0,
        i >= 0,
{
    let d = spec_index_of(name, '.');
    name.take(d) + seq!['_'] + dec_digits(i) + name.skip(d)
}

/// Finds the first occurrence of `c` in `s`.
pub fn find_char(s: &str, c: char) -> (r: Option<usize>)
    ensures
        match r {
            Some(j) => spec_index_of(s@, c) == j && j < s@.len() && s@[j as int] == c,
            None => spec_index_of(s@, c) == -1,
        },
{
    let len = s.unicode_len();
    let mut i: usize = 0;
    proof {
        assert(s@.skip(0) =~= s@);
    }
    while i < len
        invariant
            i <= len,
            len == s@.len(),
            spec_index_of(s@, c) == ({
                let r = spec_index_of(s@.skip(i as int), c);
                if r < 0 {
                    -1int
                } else {
                    r + i
                }
            }),
        decreases len - i,
    {
        if s.get_char(i) == c {
            return Some(i);
        }
        proof {
            assert(s@.skip(i as int)[0] == s@[i as int]);
            assert(s@.skip(i as int).drop_first() =~= s@.skip(i + 1));
        }
        i = i + 1;
    }
    None
}

/// Builds candidate output name `i` by inserting `_i` before the first dot
/// of `name`.
pub fn candidate_file_name(name: &str, i: u16) -> (r: String)
    requires
        spec_index_of(name@, '.') >= 0,
    ensures
        r@ == spec_candidate_name(name@, i as int),
{
    let d = match find_char(name, '.') {
        Some(d) => d,
        None => unreached(),
    };
    let len = name.unicode_len();
    let mut out = String::from_str(name.substring_char(0, d));
    out.append("_");
    out.append(u16_to_dec(i).as_str());
    out.append(name.substring_char(d, len));
    proof {
        reveal_strlit("_");
        assert(name@.subrange(0, d as int) =~= name@.take(d as int));
        assert(name@.subrange(d as int, len as int) =~= name@.skip(d as int));
        assert(out@ =~= spec_candidate_name(name@, i as int));
    }
    out
}

} // verus!
