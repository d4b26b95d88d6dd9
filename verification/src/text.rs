use vstd::prelude::*;

verus! {

/// Whether a character is white space in the sense of Unicode's `White_Space` property,
/// which is what `char::is_whitespace` and `str::trim` go by.
pub open spec fn is_white_space(c: char) -> bool {
    let u = c as u32;
    ||| 0x09 <= u <= 0x0d
    ||| u == 0x20
    ||| u == 0x85
    ||| u == 0xa0
    ||| u == 0x1680
    ||| 0x2000 <= u <= 0x200a
    ||| u == 0x2028
    ||| u == 0x2029
    ||| u == 0x202f
    ||| u == 0x205f
    ||| u == 0x3000
}

/// The characters without their leading white space.
pub open spec fn trim_start_chars(s: Seq<char>) -> Seq<char>
    decreases s.len(),
{
    if s.len() > 0 && is_white_space(s[0]) {
        trim_start_chars(s.drop_first())
    } else {
        s
    }
}

/// The characters without their trailing white space.
pub open spec fn trim_end_chars(s: Seq<char>) -> Seq<char>
    decreases s.len(),
{
    if s.len() > 0 && is_white_space(s.last()) {
        trim_end_chars(s.drop_last())
    } else {
        s
    }
}

/// The characters without their leading and trailing white space.
pub open spec fn trim_chars(s: Seq<char>) -> Seq<char> {
    trim_end_chars(trim_start_chars(s))
}

/// The pieces of `s` between the occurrences of `sep`, empty pieces included; there is
/// always at least one piece.
pub open spec fn split_chars(s: Seq<char>, sep: char) -> Seq<Seq<char>>
    decreases s.len(),
{
    if s.len() == 0 {
        seq![Seq::<char>::empty()]
    } else if s[0] == sep {
        seq![Seq::<char>::empty()] + split_chars(s.drop_first(), sep)
    } else {
        let rest = split_chars(s.drop_first(), sep);
        rest.update(0, seq![s[0]] + rest[0])
    }
}

pub proof fn lemma_split_chars_nonempty(s: Seq<char>, sep: char)
    ensures
        split_chars(s, sep).len() >= 1,
    decreases s.len(),
{
    if s.len() > 0 {
        lemma_split_chars_nonempty(s.drop_first(), sep);
    }
}

/// Splitting around a separator placed between two texts gives the pieces of the first
/// text followed by those of the second.
pub proof fn lemma_split_chars_join(x: Seq<char>, y: Seq<char>, sep: char)
    ensures
        split_chars(x + seq![sep] + y, sep) == split_chars(x, sep) + split_chars(y, sep),
    decreases x.len(),
{
    let j = x + seq![sep] + y;
    if x.len() == 0 {
        assert(j =~= seq![sep] + y);
        assert(j.drop_first() =~= y);
    } else {
        assert(j.drop_first() =~= x.drop_first() + seq![sep] + y);
        lemma_split_chars_join(x.drop_first(), y, sep);
        lemma_split_chars_nonempty(x.drop_first(), sep);
        if x[0] != sep {
            let rest = split_chars(x.drop_first(), sep);
            assert(split_chars(j, sep) =~= (rest + split_chars(y, sep)).update(0, seq![x[0]] + rest[0]));
            assert((rest + split_chars(y, sep)).update(0, seq![x[0]] + rest[0]) =~= rest.update(
                0,
                seq![x[0]] + rest[0],
            ) + split_chars(y, sep));
        } else {
            assert(split_chars(j, sep) =~= seq![Seq::<char>::empty()] + split_chars(x.drop_first(), sep)
                + split_chars(y, sep));
        }
    }
}

/// The string slice without leading and trailing white space, by `str::trim`.
#[verifier::external_body]
pub(crate) fn trim(s: &str) -> (res: &str)
    ensures
        res@ == trim_chars(s@),
{
    s.trim()
}

/// `str::split_once(' ')`: the text before the first space and the text after it, or
/// `None` when there is no space.
#[verifier::external_body]
fn split_once_space(s: &str) -> (res: Option<(&str, &str)>)
    ensures
        res is None <==> !s@.contains(' '),
        res matches Some(p) ==> s@ == p.0@ + seq![' '] + p.1@ && !p.0@.contains(' '),
{
    s.split_once(' ')
}

/// A text without the separator is a single piece.
pub proof fn lemma_split_chars_single(s: Seq<char>, sep: char)
    requires
        !s.contains(sep),
    ensures
        split_chars(s, sep) == seq![s],
    decreases s.len(),
{
    if s.len() > 0 {
        assert(s.drop_first().contains(sep) ==> s.contains(sep)) by {
            if s.drop_first().contains(sep) {
                let k = choose|k: int| 0 <= k < s.drop_first().len() && s.drop_first()[k] == sep;
                assert(s[k + 1] == sep);
            }
        }
        lemma_split_chars_single(s.drop_first(), sep);
        assert(s[0] != sep);
        assert(seq![s[0]] + s.drop_first() =~= s);
        assert(split_chars(s, sep) =~= seq![s]);
    } else {
        assert(s =~= Seq::<char>::empty());
    }
}

/// The pieces of a string slice between the spaces, empty pieces included, as
/// `str::split(' ')` gives them.
pub(crate) fn split_on_space(s: &str) -> (res: Vec<&str>)
    ensures
        res@.map_values(|p: &str| p@) == split_chars(s@, ' '),
{
    let mut pieces: Vec<&str> = Vec::new();
    let mut rest: &str = s;
    loop
        invariant
            pieces@.map_values(|p: &str| p@) + split_chars(rest@, ' ') == split_chars(s@, ' '),
        decreases rest@.len(),
    {
        match split_once_space(rest) {
            None => {
                proof {
                    lemma_split_chars_single(rest@, ' ');
                    assert(pieces@.push(rest).map_values(|p: &str| p@) =~= pieces@.map_values(
                        |p: &str| p@,
                    ) + seq![rest@]);
                }
                pieces.push(rest);
                return pieces;
            },
            Some((head, tail)) => {
                proof {
                    lemma_split_chars_single(head@, ' ');
                    lemma_split_chars_join(head@, tail@, ' ');
                    assert(pieces@.push(head).map_values(|p: &str| p@) =~= pieces@.map_values(
                        |p: &str| p@,
                    ) + seq![head@]);
                }
                pieces.push(head);
                rest = tail;
            },
        }
    }
}

/// The number of bytes of the UTF-8 encoding of a string slice.
pub open spec fn utf8_len(s: Seq<char>) -> nat {
    vstd::utf8::encode_utf8(s).len()
}

} // verus!
