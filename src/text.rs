//! Splitting and trimming text, over character ranges of a string.

use vstd::prelude::*;

verus! {

/// Unicode white space, as `char::is_whitespace` defines it.
pub open spec fn is_white(c: char) -> bool {
    let u = c as u32;
    ||| 0x9 <= u <= 0xd
    ||| u == 0x20
    ||| u == 0x85
    ||| u == 0xa0
    ||| u == 0x1680
    ||| 0x2000 <= u <= 0x200a
    ||| u == 0x2028
    ||| u == 0x2029
    ||| u == 0x202f
    ||| u == 0x205f
    ||| u == 0x3000
}

/// Whether a character is white space.
pub fn is_whitespace(c: char) -> (b: bool)
    ensures
        b == is_white(c),
{
    let u = c as u32;
    (0x9 <= u && u <= 0xd) || u == 0x20 || u == 0x85 || u == 0xa0 || u == 0x1680 || (0x2000 <= u
        && u <= 0x200a) || u == 0x2028 || u == 0x2029 || u == 0x202f || u == 0x205f || u == 0x3000
}

/// The text without its leading white space.
pub open spec fn trim_start(s: Seq<char>) -> Seq<char>
    decreases s.len(),
{
    if s.len() > 0 && is_white(s[0]) {
        trim_start(s.subrange(1, s.len() as int))
    } else {
        s
    }
}

/// The text without its trailing white space.
pub open spec fn trim_end(s: Seq<char>) -> Seq<char>
    decreases s.len(),
{
    if s.len() > 0 && is_white(s.last()) {
        trim_end(s.drop_last())
    } else {
        s
    }
}

/// The text without white space at either end.
pub open spec fn trim(s: Seq<char>) -> Seq<char> {
    trim_end(trim_start(s))
}

/// The pieces of the text between separators; the text itself when it
/// holds none, an empty piece at each end that is a separator.
pub open spec fn split_on(s: Seq<char>, sep: char) -> Seq<Seq<char>>
    decreases s.len(),
{
    if s.len() == 0 {
        seq![Seq::empty()]
    } else {
        let parts = split_on(s.drop_last(), sep);
        if s.last() == sep {
            parts.push(Seq::empty())
        } else {
            parts.update(parts.len() - 1, parts.last().push(s.last()))
        }
    }
}

/// The characters of a string.
pub fn chars_of(s: &str) -> (chars: Vec<char>)
    ensures
        chars@ == s@,
{
    let n = s.unicode_len();
    let mut chars: Vec<char> = Vec::with_capacity(n);
    let mut i: usize = 0;
    while i < n
        invariant
            n == s@.len(),
            i <= n,
            chars@ == s@.subrange(0, i as int),
        decreases n - i,
    {
        chars.push(s.get_char(i));
        i += 1;
        proof {
            assert(chars@ =~= s@.subrange(0, i as int));
        }
    }
    proof {
        assert(chars@ =~= s@);
    }
    chars
}

/// The range within `from..to` left when white space is taken off both
/// ends.
pub fn trim_range(chars: &Vec<char>, from: usize, to: usize) -> (r: (usize, usize))
    requires
        from <= to <= chars@.len(),
    ensures
        from <= r.0 <= r.1 <= to,
        chars@.subrange(r.0 as int, r.1 as int) == trim(chars@.subrange(from as int, to as int)),
{
    let mut a: usize = from;
    while a < to && is_whitespace(chars[a])
        invariant
            from <= a <= to <= chars@.len(),
            trim_start(chars@.subrange(from as int, to as int)) == trim_start(
                chars@.subrange(a as int, to as int),
            ),
        decreases to - a,
    {
        proof {
            let t = chars@.subrange(a as int, to as int);
            assert(t[0] == chars@[a as int]);
            assert(t.subrange(1, t.len() as int) =~= chars@.subrange(a + 1, to as int));
        }
        a += 1;
    }
    proof {
        let t = chars@.subrange(a as int, to as int);
        if t.len() > 0 {
            assert(t[0] == chars@[a as int]);
        }
    }
    let mut b: usize = to;
    while b > a && is_whitespace(chars[b - 1])
        invariant
            from <= a <= b <= to <= chars@.len(),
            trim_start(chars@.subrange(from as int, to as int)) == chars@.subrange(
                a as int,
                to as int,
            ),
            trim(chars@.subrange(from as int, to as int)) == trim_end(
                chars@.subrange(a as int, b as int),
            ),
        decreases b - a,
    {
        proof {
            let t = chars@.subrange(a as int, b as int);
            assert(t.last() == chars@[b - 1]);
            assert(t.drop_last() =~= chars@.subrange(a as int, b - 1));
        }
        b -= 1;
    }
    proof {
        let t = chars@.subrange(a as int, b as int);
        if t.len() > 0 {
            assert(t.last() == chars@[b - 1]);
        }
    }
    (a, b)
}

/// The ranges of the pieces of `from..to` between the separators.
pub fn split_ranges(chars: &Vec<char>, from: usize, to: usize, sep: char) -> (r: Vec<(usize, usize)>)
    requires
        from <= to <= chars@.len(),
    ensures
        r@.len() == split_on(chars@.subrange(from as int, to as int), sep).len(),
        forall|j: int|
            0 <= j < r@.len() ==> from <= (#[trigger] r@[j]).0 <= r@[j].1 <= to
                && chars@.subrange(r@[j].0 as int, r@[j].1 as int) == split_on(
                chars@.subrange(from as int, to as int),
                sep,
            )[j],
{
    let mut ranges: Vec<(usize, usize)> = Vec::new();
    let mut cur: usize = from;
    let mut i: usize = from;
    while i < to
        invariant
            from <= cur <= i <= to <= chars@.len(),
            split_on(chars@.subrange(from as int, i as int), sep).len() == ranges@.len() + 1,
            split_on(chars@.subrange(from as int, i as int), sep)[ranges@.len() as int]
                == chars@.subrange(cur as int, i as int),
            forall|j: int|
                0 <= j < ranges@.len() ==> from <= (#[trigger] ranges@[j]).0 <= ranges@[j].1 <= to
                    && chars@.subrange(ranges@[j].0 as int, ranges@[j].1 as int) == split_on(
                    chars@.subrange(from as int, i as int),
                    sep,
                )[j],
        decreases to - i,
    {
        proof {
            let t = chars@.subrange(from as int, i + 1);
            assert(t.drop_last() =~= chars@.subrange(from as int, i as int));
            assert(t.last() == chars@[i as int]);
        }
        if chars[i] == sep {
            ranges.push((cur, i));
            cur = i + 1;
            proof {
                assert(chars@.subrange(cur as int, i + 1) =~= Seq::<char>::empty());
            }
        } else {
            proof {
                assert(chars@.subrange(cur as int, i + 1) =~= chars@.subrange(cur as int, i as int).push(
                    chars@[i as int],
                ));
            }
        }
        i += 1;
    }
    ranges.push((cur, to));
    ranges
}

} // verus!
