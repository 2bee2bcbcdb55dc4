//! Verified text-format helpers: splitting a line on a separator
//! character and reading an unsigned integer, with the splitting and
//! acceptance rules of the standard library stated as specifications.

use vstd::prelude::*;

verus! {

/// The fields of `s` split on `sep`: every maximal (possibly empty) run
/// between separators, so an empty input yields one empty field.
pub open spec fn split_on(s: Seq<char>, sep: char) -> Seq<Seq<char>>
    decreases s.len(),
{
    if s.len() == 0 {
        seq![Seq::empty()]
    } else if s[0] == sep {
        seq![Seq::<char>::empty()] + split_on(s.drop_first(), sep)
    } else {
        let r = split_on(s.drop_first(), sep);
        seq![seq![s[0]] + r[0]] + r.drop_first()
    }
}

/// A split has at least one field.
pub proof fn lemma_split_on_nonempty(s: Seq<char>, sep: char)
    ensures
        split_on(s, sep).len() >= 1,
    decreases s.len(),
{
    if s.len() > 0 {
        lemma_split_on_nonempty(s.drop_first(), sep);
    }
}

/// The first field of a split, prefixed by `c`.
spec fn prefixed_split(sp: Seq<Seq<char>>, c: Seq<char>) -> Seq<Seq<char>> {
    seq![c + sp[0]] + sp.drop_first()
}

/// Split `s` on the separator character, as `str::split` does.
pub fn split_chars(s: &Vec<char>, sep: char) -> (r: Vec<Vec<char>>)
    ensures
        r@.map_values(|f: Vec<char>| f@) == split_on(s@, sep),
{
    let mut fields: Vec<Vec<char>> = Vec::new();
    let mut cur: Vec<char> = Vec::new();
    let mut i: usize = 0;
    proof {
        assert(s@.skip(0) =~= s@);
        lemma_split_on_nonempty(s@, sep);
        assert(split_on(s@, sep) =~~= fields@.map_values(|f: Vec<char>| f@) + prefixed_split(
            split_on(s@.skip(0), sep),
            cur@,
        ));
    }
    while i < s.len()
        invariant
            i <= s@.len(),
            split_on(s@, sep) == fields@.map_values(|f: Vec<char>| f@) + prefixed_split(
                split_on(s@.skip(i as int), sep),
                cur@,
            ),
        decreases s@.len() - i,
    {
        let ghost prev_fields = fields@;
        let ghost prev_cur = cur@;
        let c = s[i];
        proof {
            assert(s@.skip(i as int)[0] == s@[i as int]);
            assert(s@.skip(i as int).drop_first() =~= s@.skip(i as int + 1));
            lemma_split_on_nonempty(s@.skip(i as int + 1), sep);
        }
        if c == sep {
            fields.push(cur);
            cur = Vec::new();
            proof {
                assert(fields@.map_values(|f: Vec<char>| f@) =~~= prev_fields.map_values(
                    |f: Vec<char>| f@,
                ).push(prev_cur));
                assert(split_on(s@, sep) =~~= fields@.map_values(|f: Vec<char>| f@)
                    + prefixed_split(split_on(s@.skip(i as int + 1), sep), cur@));
            }
        } else {
            cur.push(c);
            proof {
                let rest = split_on(s@.skip(i as int + 1), sep);
                assert(prefixed_split(split_on(s@.skip(i as int), sep), prev_cur)
                    =~~= prefixed_split(rest, cur@));
            }
        }
        i += 1;
    }
    proof {
        assert(s@.skip(s@.len() as int) =~= Seq::<char>::empty());
        assert(split_on(Seq::<char>::empty(), sep) =~~= seq![Seq::<char>::empty()]);
    }
    fields.push(cur);
    proof {
        assert(fields@.map_values(|f: Vec<char>| f@) =~~= split_on(s@, sep));
    }
    fields
}

/// The character sequences of a listing of lines.
pub open spec fn views_of(lines: Seq<Vec<char>>) -> Seq<Seq<char>> {
    lines.map_values(|l: Vec<char>| l@)
}

/// Whether `c` is a decimal digit.
pub open spec fn is_digit(c: char) -> bool {
    48 <= c as u32 <= 57
}

/// The value of a decimal digit.
pub open spec fn digit_val(c: char) -> nat {
    (c as u32 - 48) as nat
}

/// The value of a digit run, most significant digit first.
pub open spec fn digits_val(s: Seq<char>) -> nat
    decreases s.len(),
{
    if s.len() == 0 {
        0
    } else {
        digits_val(s.drop_last()) * 10 + digit_val(s.last())
    }
}

/// The digit run of an unsigned-integer literal: the text after an
/// optional leading plus sign.
pub open spec fn uint_digits(s: Seq<char>) -> Seq<char> {
    if s.len() > 0 && s[0] == '+' {
        s.drop_first()
    } else {
        s
    }
}

/// Whether `s` reads as an unsigned integer that fits the pointer
/// width: an optional plus sign, then one or more digits, with a value
/// of at most `usize::MAX`.
pub open spec fn parses_as_uint(s: Seq<char>) -> bool {
    &&& uint_digits(s).len() > 0
    &&& (forall|i: int| 0 <= i < uint_digits(s).len() ==> is_digit(#[trigger] uint_digits(s)[i]))
    &&& digits_val(uint_digits(s)) <= usize::MAX
}

/// The value `s` reads as.
pub open spec fn uint_value(s: Seq<char>) -> nat {
    digits_val(uint_digits(s))
}

/// A prefix of a digit run never exceeds the whole run's value.
proof fn lemma_digits_val_prefix(d: Seq<char>, m: int)
    requires
        0 <= m <= d.len(),
    ensures
        digits_val(d.take(m)) <= digits_val(d),
    decreases d.len(),
{
    if m < d.len() {
        assert(d.take(m) =~= d.drop_last().take(m));
        lemma_digits_val_prefix(d.drop_last(), m);
    } else {
        assert(d.take(m) =~= d);
    }
}

/// Read an unsigned integer as `usize::from_str` accepts it: an
/// optional plus sign, then one or more digits, refused on any other
/// character or on overflow.
pub fn parse_usize(field: &Vec<char>) -> (r: Option<usize>)
    ensures
        match r {
            Some(v) => parses_as_uint(field@) && v == uint_value(field@),
            None => !parses_as_uint(field@),
        },
{
    let ghost d = uint_digits(field@);
    let mut i: usize = 0;
    if field.len() > 0 && field[0] == '+' {
        i = 1;
        proof {
            assert(d =~= field@.skip(1));
        }
    } else {
        proof {
            assert(d =~= field@.skip(0));
            assert(d =~= field@);
        }
    }
    if i >= field.len() {
        return None;
    }
    let ghost base = i as int;
    let mut acc: usize = 0;
    let mut j: usize = i;
    while j < field.len()
        invariant
            base <= j <= field@.len(),
            base == 0 || base == 1,
            base < field@.len(),
            d == field@.skip(base),
            d == uint_digits(field@),
            forall|p: int| base <= p < j ==> is_digit(#[trigger] field@[p]),
            acc == digits_val(field@.subrange(base, j as int)),
        decreases field@.len() - j,
    {
        let c = field[j];
        let cu = c as u32;
        if cu < 48 || cu > 57 {
            proof {
                assert(uint_digits(field@) == d);
                assert(d[j - base] == field@[j as int]);
                assert(!is_digit(uint_digits(field@)[j - base]));
                assert(!parses_as_uint(field@));
            }
            return None;
        }
        let digit = (cu - 48) as usize;
        proof {
            assert(is_digit(field@[j as int]));
            assert(digit == digit_val(field@[j as int]));
            assert(field@.subrange(base, j as int + 1).drop_last() =~= field@.subrange(
                base,
                j as int,
            ));
            assert(field@.subrange(base, j as int + 1).last() == field@[j as int]);
            assert(digits_val(field@.subrange(base, j as int + 1)) == acc * 10 + digit);
        }
        if acc > (usize::MAX - digit) / 10 {
            proof {
                assert(acc * 10 + digit > usize::MAX) by (nonlinear_arith)
                    requires
                        acc > (usize::MAX - digit) / 10,
                        digit <= 9,
                ;
                assert(d.take(j - base + 1) =~= field@.subrange(base, j as int + 1));
                lemma_digits_val_prefix(d, j - base + 1);
                assert(digits_val(d) > usize::MAX);
                assert(uint_digits(field@) == d);
                assert(digits_val(uint_digits(field@)) > usize::MAX);
                assert(!parses_as_uint(field@));
            }
            return None;
        }
        proof {
            assert(acc * 10 + digit <= usize::MAX) by (nonlinear_arith)
                requires
                    acc <= (usize::MAX - digit) / 10,
                    digit <= 9,
            ;
        }
        acc = acc * 10 + digit;
        j += 1;
    }
    proof {
        assert(field@.subrange(base, field@.len() as int) =~= d);
        assert forall|p: int| 0 <= p < d.len() implies is_digit(#[trigger] d[p]) by {
            assert(d[p] == field@[p + base]);
        }
    }
    Some(acc)
}

} // verus!
