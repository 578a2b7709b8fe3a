//! Text primitives of the human-readable format: whitespace trimming,
//! separator splitting, unsigned decimal parsing and rendering, and field
//! padding.

use vstd::prelude::*;
use vstd::string::*;

verus! {

/// The whitespace characters the text grammar trims around fields and lines.
pub open spec fn is_space_char(c: char) -> bool {
    c == ' ' || c == '\t' || c == '\r' || c == '\n'
}

/// True when every character of `s` is whitespace.
pub open spec fn all_spaces(s: Seq<char>) -> bool {
    forall|i: int| 0 <= i < s.len() ==> is_space_char(s[i])
}

/// `s` without its leading and trailing whitespace.
pub open spec fn spec_trim(s: Seq<char>) -> Seq<char>
    decreases s.len(),
{
    if s.len() == 0 {
        s
    } else if is_space_char(s[0]) {
        spec_trim(s.drop_first())
    } else if is_space_char(s.last()) {
        spec_trim(s.drop_last())
    } else {
        s
    }
}

/// Trimming strips exactly the whitespace around a part that neither starts
/// nor ends with whitespace.
pub proof fn lemma_trim_exact(pre: Seq<char>, core: Seq<char>, post: Seq<char>)
    requires
        all_spaces(pre),
        all_spaces(post),
        core.len() > 0,
        !is_space_char(core[0]),
        !is_space_char(core.last()),
    ensures
        spec_trim(pre + core + post) == core,
    decreases pre.len() + post.len(),
{
    let s = pre + core + post;
    if pre.len() > 0 {
        assert(is_space_char(s[0]));
        assert(s.drop_first() =~= pre.drop_first() + core + post);
        lemma_trim_exact(pre.drop_first(), core, post);
    } else if post.len() > 0 {
        assert(s[0] == core[0]);
        assert(s.last() == post.last());
        assert(is_space_char(s.last()));
        assert(s.drop_last() =~= pre + core + post.drop_last());
        lemma_trim_exact(pre, core, post.drop_last());
    } else {
        assert(s =~= core);
        assert(spec_trim(core) == core);
    }
}

fn is_space(c: char) -> (b: bool)
    ensures
        b == is_space_char(c),
{
    c == ' ' || c == '\t' || c == '\r' || c == '\n'
}

/// Strips leading and trailing whitespace from `s`.
pub fn trim_str(s: &str) -> (r: &str)
    ensures
        r@ == spec_trim(s@),
{
    let len = s.unicode_len();
    let mut a: usize = 0;
    proof {
        assert(s@.skip(0) =~= s@);
    }
    loop
        invariant
            a <= len,
            len == s@.len(),
            spec_trim(s@) == spec_trim(s@.skip(a as int)),
        ensures
            a <= len,
            len == s@.len(),
            spec_trim(s@) == spec_trim(s@.skip(a as int)),
            a == len || !is_space_char(s@[a as int]),
        decreases len - a,
    {
        if a == len {
            break ;
        }
        let c = s.get_char(a);
        if !is_space(c) {
            break ;
        }
        proof {
            assert(s@.skip(a as int).drop_first() =~= s@.skip(a + 1));
        }
        a = a + 1;
    }
    if a == len {
        proof {
            assert(s@.skip(a as int) =~= Seq::<char>::empty());
        }
        return s.substring_char(len, len);
    }
    let mut b: usize = len;
    loop
        invariant
            a < b <= len,
            len == s@.len(),
            !is_space_char(s@[a as int]),
            spec_trim(s@) == spec_trim(s@.subrange(a as int, b as int)),
        ensures
            a < b <= len,
            spec_trim(s@) == s@.subrange(a as int, b as int),
        decreases b,
    {
        let c = s.get_char(b - 1);
        if !is_space(c) {
            proof {
                let part = s@.subrange(a as int, b as int);
                assert(part[0] == s@[a as int]);
                assert(part.last() == s@[b - 1]);
                assert(spec_trim(part) == part);
            }
            break ;
        }
        proof {
            let part = s@.subrange(a as int, b as int);
            assert(part[0] == s@[a as int]);
            assert(part.last() == s@[b - 1]);
            assert(part.drop_last() =~= s@.subrange(a as int, b - 1));
            assert(b - 1 > a) by {
                if b - 1 == a {
                    assert(part[0] == part.last());
                }
            }
        }
        b = b - 1;
    }
    s.substring_char(a, b)
}

/// `s` cut at every occurrence of `sep`: `n` separators yield `n + 1` pieces,
/// empty pieces included, as `str::split` does.
pub open spec fn spec_split(s: Seq<char>, sep: char) -> Seq<Seq<char>>
    decreases s.len(),
{
    if s.len() == 0 {
        seq![s]
    } else if s[0] == sep {
        seq![Seq::<char>::empty()] + spec_split(s.drop_first(), sep)
    } else {
        let rest = spec_split(s.drop_first(), sep);
        seq![seq![s[0]] + rest[0]] + rest.drop_first()
    }
}

/// Splitting always yields at least one piece.
pub proof fn lemma_split_len(s: Seq<char>, sep: char)
    ensures
        spec_split(s, sep).len() >= 1,
    decreases s.len(),
{
    if s.len() > 0 {
        lemma_split_len(s.drop_first(), sep);
    }
}

/// A separator-free text splits into the single piece that is itself.
pub proof fn lemma_split_no_sep(a: Seq<char>, sep: char)
    requires
        forall|i: int| 0 <= i < a.len() ==> a[i] != sep,
    ensures
        spec_split(a, sep) == seq![a],
    decreases a.len(),
{
    if a.len() == 0 {
        assert(spec_split(a, sep) =~~= seq![a]);
    } else {
        lemma_split_no_sep(a.drop_first(), sep);
        let rest = spec_split(a.drop_first(), sep);
        assert(rest[0] == a.drop_first());
        assert(seq![a[0]] + rest[0] =~= a);
        assert(rest.drop_first() =~= Seq::<Seq<char>>::empty());
        assert(spec_split(a, sep) =~~= seq![a]);
    }
}

/// Splitting at the first separator: a separator-free prefix becomes the
/// first piece and the rest splits on its own.
pub proof fn lemma_split_sep_append(a: Seq<char>, b: Seq<char>, sep: char)
    requires
        forall|i: int| 0 <= i < a.len() ==> a[i] != sep,
    ensures
        spec_split(a + seq![sep] + b, sep) == seq![a] + spec_split(b, sep),
    decreases a.len(),
{
    let s = a + seq![sep] + b;
    if a.len() == 0 {
        assert(s[0] == sep);
        assert(s.drop_first() =~= b);
        assert(spec_split(s, sep) =~~= seq![a] + spec_split(b, sep));
    } else {
        assert(s[0] == a[0]);
        assert(s.drop_first() =~= a.drop_first() + seq![sep] + b);
        lemma_split_sep_append(a.drop_first(), b, sep);
        let rest = spec_split(s.drop_first(), sep);
        lemma_split_len(b, sep);
        assert(rest[0] == a.drop_first());
        assert(seq![s[0]] + rest[0] =~= a);
        assert(rest.drop_first() =~= spec_split(b, sep));
        assert(spec_split(s, sep) =~~= seq![a] + spec_split(b, sep));
    }
}

/// Cuts `s` at every occurrence of `sep`, keeping empty pieces.
pub fn split_char(s: &str, sep: char) -> (r: Vec<String>)
    ensures
        r.deep_view() == spec_split(s@, sep),
        r@.len() >= 1,
{
    let len = s.unicode_len();
    let mut pieces: Vec<String> = Vec::new();
    let mut start: usize = 0;
    let mut i: usize = 0;
    proof {
        assert(s@.skip(0) =~= s@);
        assert(pieces.deep_view() + spec_split(s@, sep) =~~= spec_split(s@, sep));
    }
    while i < len
        invariant
            start <= i <= len,
            len == s@.len(),
            forall|j: int| start <= j < i ==> s@[j] != sep,
            spec_split(s@, sep) == pieces.deep_view() + spec_split(s@.skip(start as int), sep),
        decreases len - i,
    {
        let c = s.get_char(i);
        if c == sep {
            let piece = String::from_str(s.substring_char(start, i));
            pieces.push(piece);
            proof {
                let part = s@.subrange(start as int, i as int);
                assert(s@.skip(start as int) =~= part + seq![sep] + s@.skip(i + 1));
                lemma_split_sep_append(part, s@.skip(i + 1), sep);
                assert(pieces.deep_view() =~~= pieces.deep_view().subrange(
                    0,
                    pieces.deep_view().len() - 1,
                ).push(part));
                assert(spec_split(s@, sep) =~~= pieces.deep_view() + spec_split(
                    s@.skip(i + 1),
                    sep,
                ));
            }
            start = i + 1;
        }
        i = i + 1;
    }
    let piece = String::from_str(s.substring_char(start, len));
    pieces.push(piece);
    proof {
        let part = s@.subrange(start as int, len as int);
        assert(s@.skip(start as int) =~= part);
        lemma_split_no_sep(part, sep);
        assert(pieces.deep_view() =~~= pieces.deep_view().subrange(
            0,
            pieces.deep_view().len() - 1,
        ).push(part));
        assert(pieces.deep_view() =~~= spec_split(s@, sep));
    }
    pieces
}

/// The lines joined with one `sep` after each line (the shape of a file
/// whose every line is terminated).
pub open spec fn join_term(lines: Seq<Seq<char>>, sep: char) -> Seq<char>
    decreases lines.len(),
{
    if lines.len() == 0 {
        Seq::empty()
    } else {
        lines[0] + seq![sep] + join_term(lines.drop_first(), sep)
    }
}

/// The lines joined with one `sep` between neighbours (the shape `spec_split`
/// inverts).
pub open spec fn join_sep(lines: Seq<Seq<char>>, sep: char) -> Seq<char>
    recommends
        lines.len() >= 1,
    decreases lines.len(),
{
    if lines.len() == 0 {
        Seq::empty()
    } else if lines.len() == 1 {
        lines[0]
    } else {
        lines[0] + seq![sep] + join_sep(lines.drop_first(), sep)
    }
}

/// Terminated lines are separated lines with one final separator.
pub proof fn lemma_join_term_as_sep(lines: Seq<Seq<char>>, sep: char)
    requires
        lines.len() >= 1,
    ensures
        join_term(lines, sep) == join_sep(lines, sep) + seq![sep],
    decreases lines.len(),
{
    if lines.len() == 1 {
        assert(join_term(lines.drop_first(), sep) == Seq::<char>::empty());
        assert(join_term(lines, sep) =~= join_sep(lines, sep) + seq![sep]);
    } else {
        lemma_join_term_as_sep(lines.drop_first(), sep);
        assert(join_term(lines, sep) =~= join_sep(lines, sep) + seq![sep]);
    }
}

/// Joining one more batch of terminated lines appends its text.
pub proof fn lemma_join_term_append(a: Seq<Seq<char>>, b: Seq<Seq<char>>, sep: char)
    ensures
        join_term(a + b, sep) == join_term(a, sep) + join_term(b, sep),
    decreases a.len(),
{
    if a.len() == 0 {
        assert(a + b =~~= b);
        assert(join_term(a, sep) + join_term(b, sep) =~= join_term(b, sep));
    } else {
        assert((a + b).drop_first() =~~= a.drop_first() + b);
        assert((a + b)[0] == a[0]);
        lemma_join_term_append(a.drop_first(), b, sep);
        assert(join_term(a + b, sep) =~= join_term(a, sep) + join_term(b, sep));
    }
}

/// Splitting undoes joining, when no line contains the separator.
pub proof fn lemma_split_join_sep(lines: Seq<Seq<char>>, sep: char)
    requires
        lines.len() >= 1,
        forall|i: int, j: int|
            0 <= i < lines.len() && 0 <= j < lines[i].len() ==> #[trigger] lines[i][j] != sep,
    ensures
        spec_split(join_sep(lines, sep), sep) == lines,
    decreases lines.len(),
{
    if lines.len() == 1 {
        lemma_split_no_sep(lines[0], sep);
        assert(spec_split(join_sep(lines, sep), sep) =~~= lines);
    } else {
        assert forall|i: int, j: int|
            0 <= i < lines.drop_first().len() && 0 <= j < lines.drop_first()[i].len() implies #[trigger] lines.drop_first()[i][j]
            != sep by {
            assert(lines.drop_first()[i] == lines[i + 1]);
        }
        lemma_split_join_sep(lines.drop_first(), sep);
        lemma_split_sep_append(lines[0], join_sep(lines.drop_first(), sep), sep);
        assert(spec_split(join_sep(lines, sep), sep) =~~= lines);
    }
}

/// Where the joined text starts and ends: with the first line's first
/// character and the last line's last character.
pub proof fn lemma_join_sep_ends(lines: Seq<Seq<char>>, sep: char)
    requires
        lines.len() >= 1,
    ensures
        lines[0].len() > 0 ==> join_sep(lines, sep).len() > 0 && join_sep(lines, sep)[0]
            == lines[0][0],
        lines.last().len() > 0 ==> join_sep(lines, sep).len() > 0 && join_sep(lines, sep).last()
            == lines.last().last(),
    decreases lines.len(),
{
    if lines.len() == 1 {
    } else {
        lemma_join_sep_ends(lines.drop_first(), sep);
        let rest = join_sep(lines.drop_first(), sep);
        if lines.last().len() > 0 {
            assert(lines.drop_first().last() == lines.last());
            assert(rest.len() > 0);
            assert(join_sep(lines, sep).last() == rest.last());
        }
    }
}

/// The decimal digits `'0'..'9'`.
pub open spec fn is_digit_char(c: char) -> bool {
    48 <= c as u32 <= 57
}

/// The numeric value of one decimal digit character.
pub open spec fn digit_val(c: char) -> int
    recommends
        is_digit_char(c),
{
    c as u32 - 48
}

/// Nonempty and made of decimal digits only: the texts `str::parse` style
/// unsigned parsing accepts.
pub open spec fn all_digits(s: Seq<char>) -> bool {
    s.len() > 0 && forall|i: int| 0 <= i < s.len() ==> is_digit_char(s[i])
}

/// The number the digit text `s` denotes, most significant digit first.
pub open spec fn dec_val(s: Seq<char>) -> int
    decreases s.len(),
{
    if s.len() == 0 {
        0
    } else {
        dec_val(s.drop_last()) * 10 + digit_val(s.last())
    }
}

/// A digit text parsed as unsigned 16-bit decimal, `None` when it is not all
/// digits or its value does not fit.
pub open spec fn spec_parse_u16(s: Seq<char>) -> Option<u16> {
    if all_digits(s) && dec_val(s) <= 65535 {
        Some(dec_val(s) as u16)
    } else {
        None
    }
}

/// A digit text parsed as unsigned 8-bit decimal.
pub open spec fn spec_parse_u8(s: Seq<char>) -> Option<u8> {
    if all_digits(s) && dec_val(s) <= 255 {
        Some(dec_val(s) as u8)
    } else {
        None
    }
}

/// The digit character for one value `0..9`.
pub open spec fn digit_char(d: int) -> char
    recommends
        0 <= d < 10,
{
    if d == 0 {
        '0'
    } else if d == 1 {
        '1'
    } else if d == 2 {
        '2'
    } else if d == 3 {
        '3'
    } else if d == 4 {
        '4'
    } else if d == 5 {
        '5'
    } else if d == 6 {
        '6'
    } else if d == 7 {
        '7'
    } else if d == 8 {
        '8'
    } else {
        '9'
    }
}

/// The canonical decimal rendering of `n`, without sign, padding or leading
/// zeros (except the single `'0'` of zero itself).
pub open spec fn dec_digits(n: int) -> Seq<char>
    recommends
        n >= 0,
    decreases n,
{
    if n < 10 {
        seq![digit_char(n)]
    } else {
        dec_digits(n / 10).push(digit_char(n % 10))
    }
}

/// Rendering a number yields all digits, and parsing them gives the number
/// back.
pub proof fn lemma_dec_digits_ok(n: int)
    requires
        n >= 0,
    ensures
        all_digits(dec_digits(n)),
        dec_val(dec_digits(n)) == n,
    decreases n,
{
    if n < 10 {
        assert(seq![digit_char(n)].drop_last() =~= Seq::<char>::empty());
        assert(seq![digit_char(n)].last() == digit_char(n));
        assert(dec_val(Seq::<char>::empty()) == 0);
        assert(is_digit_char(digit_char(n)));
        assert(digit_val(digit_char(n)) == n);
    } else {
        lemma_dec_digits_ok(n / 10);
        let d = dec_digits(n / 10);
        assert(d.push(digit_char(n % 10)).drop_last() =~= d);
        assert(dec_val(dec_digits(n)) == dec_val(d) * 10 + digit_val(digit_char(n % 10)));
        assert(digit_val(digit_char(n % 10)) == n % 10);
        assert(n / 10 * 10 + n % 10 == n) by (nonlinear_arith);
        assert(forall|i: int|
            0 <= i < dec_digits(n).len() ==> is_digit_char(#[trigger] dec_digits(n)[i]));
    }
}

/// Digits are plain field characters: not whitespace and not a separator of
/// either grammar level.
pub proof fn lemma_digit_plain(c: char)
    requires
        is_digit_char(c),
    ensures
        !is_space_char(c),
        c != '|',
        c != '\n',
        c != ' ',
{
}

/// A rendered number is all digits, parses back to itself, and contains no
/// whitespace and no separator of either grammar level.
pub proof fn lemma_dec_digits_plain(n: int)
    requires
        n >= 0,
    ensures
        all_digits(dec_digits(n)),
        dec_val(dec_digits(n)) == n,
        forall|i: int|
            0 <= i < dec_digits(n).len() ==> (!is_space_char(#[trigger] dec_digits(n)[i])
                && dec_digits(n)[i] != '|' && dec_digits(n)[i] != '\n' && dec_digits(n)[i] != ' '),
{
    lemma_dec_digits_ok(n);
    assert forall|i: int| 0 <= i < dec_digits(n).len() implies (!is_space_char(
        #[trigger] dec_digits(n)[i],
    ) && dec_digits(n)[i] != '|' && dec_digits(n)[i] != '\n' && dec_digits(n)[i] != ' ') by {
        lemma_digit_plain(dec_digits(n)[i]);
    }
}

/// A digit text denotes a nonnegative number.
pub proof fn lemma_dec_val_nonneg(s: Seq<char>)
    requires
        forall|i: int| 0 <= i < s.len() ==> is_digit_char(s[i]),
    ensures
        dec_val(s) >= 0,
    decreases s.len(),
{
    if s.len() > 0 {
        lemma_dec_val_nonneg(s.drop_last());
        assert(is_digit_char(s.last()));
    }
}

/// Appending digits to a digit text can only grow its value.
pub proof fn lemma_dec_val_prefix_le(s: Seq<char>, i: int)
    requires
        0 <= i <= s.len(),
        forall|j: int| i <= j < s.len() ==> is_digit_char(s[j]),
        dec_val(s.take(i)) >= 0,
    ensures
        dec_val(s) >= dec_val(s.take(i)),
    decreases s.len() - i,
{
    if i == s.len() {
        assert(s.take(i) =~= s);
    } else {
        assert(s.take(i + 1).drop_last() =~= s.take(i));
        assert(s.take(i + 1).last() == s[i]);
        assert(dec_val(s.take(i + 1)) == dec_val(s.take(i)) * 10 + digit_val(s[i]));
        assert(dec_val(s.take(i)) * 10 >= dec_val(s.take(i))) by (nonlinear_arith)
            requires
                dec_val(s.take(i)) >= 0,
        ;
        lemma_dec_val_prefix_le(s, i + 1);
    }
}

/// Parses `s` as an unsigned 16-bit decimal integer: all digits, value within
/// 16 bits, or `None`.
pub fn parse_u16(s: &str) -> (r: Option<u16>)
    ensures
        r == spec_parse_u16(s@),
{
    let len = s.unicode_len();
    if len == 0 {
        return None;
    }
    let mut i: usize = 0;
    let mut v: u32 = 0;
    proof {
        assert(s@.take(0) =~= Seq::<char>::empty());
    }
    while i < len
        invariant
            i <= len,
            len == s@.len(),
            forall|j: int| 0 <= j < i ==> is_digit_char(s@[j]),
            v == dec_val(s@.take(i as int)),
            v <= 65535,
        decreases len - i,
    {
        let c = s.get_char(i);
        let d = c as u32;
        if d < 48 || d > 57 {
            assert(!is_digit_char(s@[i as int]));
            return None;
        }
        proof {
            assert(s@.take(i + 1).drop_last() =~= s@.take(i as int));
            assert(s@.take(i + 1).last() == s@[i as int]);
        }
        v = v * 10 + (d - 48);
        if v > 65535 {
            proof {
                if all_digits(s@) {
                    lemma_dec_val_prefix_le(s@, i + 1);
                }
            }
            return None;
        }
        i = i + 1;
    }
    proof {
        assert(s@.take(len as int) =~= s@);
    }
    Some(v as u16)
}

/// Parses `s` as an unsigned 8-bit decimal integer.
pub fn parse_u8(s: &str) -> (r: Option<u8>)
    ensures
        r == spec_parse_u8(s@),
{
    match parse_u16(s) {
        Some(v) => {
            proof {
                lemma_dec_val_nonneg(s@);
            }
            if v <= 255 {
                Some(v as u8)
            } else {
                None
            }
        },
        None => None,
    }
}

/// The digit character for one value `0..9`, as a one-character text.
fn digit_str(d: u8) -> (r: &'static str)
    requires
        d < 10,
    ensures
        r@ == seq![digit_char(d as int)],
{
    proof {
        reveal_strlit("0");
        reveal_strlit("1");
        reveal_strlit("2");
        reveal_strlit("3");
        reveal_strlit("4");
        reveal_strlit("5");
        reveal_strlit("6");
        reveal_strlit("7");
        reveal_strlit("8");
        reveal_strlit("9");
    }
    let r = if d == 0 {
        "0"
    } else if d == 1 {
        "1"
    } else if d == 2 {
        "2"
    } else if d == 3 {
        "3"
    } else if d == 4 {
        "4"
    } else if d == 5 {
        "5"
    } else if d == 6 {
        "6"
    } else if d == 7 {
        "7"
    } else {
        "8"
    };
    let r = if d == 9 {
        "9"
    } else {
        r
    };
    proof {
        assert(r@ =~= seq![digit_char(d as int)]);
    }
    r
}

/// Renders `n` as its canonical decimal digit text.
pub fn u16_to_dec(n: u16) -> (s: String)
    ensures
        s@ == dec_digits(n as int),
    decreases n,
{
    if n < 10 {
        String::from_str(digit_str(n as u8))
    } else {
        let mut s = u16_to_dec(n / 10);
        s.append(digit_str((n % 10) as u8));
        proof {
            assert(s@ =~= dec_digits(n as int));
        }
        s
    }
}

/// A run of `n` spaces (or none, when `n` is not positive).
pub open spec fn spaces(n: int) -> Seq<char> {
    Seq::new(
        if n >= 0 {
            n as nat
        } else {
            0
        },
        |i: int| ' ',
    )
}

/// `s` centered in a field of width `w`: the spare width is split with the
/// extra space on the right; a piece at least `w` wide stays as it is.
pub open spec fn center_pad(s: Seq<char>, w: int) -> Seq<char> {
    if s.len() >= w {
        s
    } else {
        spaces((w - s.len()) / 2) + s + spaces(w - s.len() - (w - s.len()) / 2)
    }
}

/// `s` right-aligned in a field of width `w`.
pub open spec fn right_align(s: Seq<char>, w: int) -> Seq<char> {
    if s.len() >= w {
        s
    } else {
        spaces(w - s.len()) + s
    }
}

/// Appends `n` spaces to `out`.
pub fn push_spaces(out: &mut String, n: usize)
    ensures
        final(out)@ == old(out)@ + spaces(n as int),
{
    let mut i: usize = 0;
    proof {
        assert(out@ =~= old(out)@ + spaces(0));
    }
    while i < n
        invariant
            i <= n,
            out@ == old(out)@ + spaces(i as int),
        decreases n - i,
    {
        out.append(" ");
        proof {
            reveal_strlit(" ");
            assert(out@ =~= old(out)@ + spaces(i + 1));
        }
        i = i + 1;
    }
}

/// Appends `piece` centered to width `w`.
pub fn append_center(out: &mut String, piece: &str, w: usize)
    ensures
        final(out)@ == old(out)@ + center_pad(piece@, w as int),
{
    let n = piece.unicode_len();
    if n >= w {
        out.append(piece);
    } else {
        let left = (w - n) / 2;
        push_spaces(out, left);
        out.append(piece);
        push_spaces(out, w - n - left);
        proof {
            assert(out@ =~= old(out)@ + center_pad(piece@, w as int));
        }
    }
}

/// Appends `piece` right-aligned to width `w`.
pub fn append_right(out: &mut String, piece: &str, w: usize)
    ensures
        final(out)@ == old(out)@ + right_align(piece@, w as int),
{
    let n = piece.unicode_len();
    if n >= w {
        out.append(piece);
    } else {
        push_spaces(out, w - n);
        out.append(piece);
        proof {
            assert(out@ =~= old(out)@ + right_align(piece@, w as int));
        }
    }
}

} // verus!
