//! Small verified text helpers: splitting on a separator character and
//! reading unsigned decimal numbers.  They back the CPU-list and
//! environment-variable parsing.

use vstd::prelude::*;

verus! {

/// An ASCII decimal digit.
pub open spec fn is_digit_char(c: char) -> bool {
    '0' <= c && c <= '9'
}

/// The numeric value of a digit character.
pub open spec fn digit_value(c: char) -> int {
    c as int - '0' as int
}

/// Every character of `s` is a decimal digit.
pub open spec fn all_digits(s: Seq<char>) -> bool {
    forall|i: int| 0 <= i < s.len() ==> is_digit_char(s[i])
}

/// The number that the digit string `s` denotes, most significant digit
/// first; 0 for the empty string.
pub open spec fn digits_value(s: Seq<char>) -> int
    decreases s.len(),
{
    if s.len() == 0 {
        0
    } else {
        digits_value(s.drop_last()) * 10 + digit_value(s.last())
    }
}

/// A digit string denotes a number that is not negative.
pub proof fn lemma_digits_value_nonneg(s: Seq<char>)
    requires
        all_digits(s),
    ensures
        digits_value(s) >= 0,
    decreases s.len(),
{
    if s.len() > 0 {
        assert(all_digits(s.drop_last()));
        lemma_digits_value_nonneg(s.drop_last());
    }
}

/// Reading one more digit multiplies the value so far by ten and adds the
/// digit.
pub proof fn lemma_digits_value_step(s: Seq<char>, i: int)
    requires
        0 <= i < s.len(),
    ensures
        digits_value(s.take(i + 1)) == digits_value(s.take(i)) * 10 + digit_value(s[i]),
{
    assert(s.take(i + 1).drop_last() =~= s.take(i));
    assert(s.take(i + 1).last() == s[i]);
}

/// A digit string denotes at least as much as any of its prefixes.
pub proof fn lemma_digits_value_prefix(s: Seq<char>, i: int)
    requires
        all_digits(s),
        0 <= i <= s.len(),
    ensures
        digits_value(s.take(i)) <= digits_value(s),
    decreases s.len() - i,
{
    if i < s.len() {
        lemma_digits_value_step(s, i);
        assert(all_digits(s.take(i)));
        lemma_digits_value_nonneg(s.take(i));
        lemma_digits_value_prefix(s, i + 1);
    } else {
        assert(s.take(i) =~= s);
    }
}

/// Reads `s` as an unsigned decimal number.  The result is `Some` exactly
/// when `s` is nonempty, consists of digits only, and its value fits in a
/// `u64`; the value is then exact.
pub fn parse_u64_digits(s: &str) -> (r: Option<u64>)
    ensures
        r.is_some() <==> s@.len() > 0 && all_digits(s@) && digits_value(s@) <= u64::MAX,
        r.is_some() ==> r.unwrap() == digits_value(s@),
{
    let len = s.unicode_len();
    if len == 0 {
        return None;
    }
    let mut acc: u64 = 0;
    let mut i: usize = 0;
    while i < len
        invariant
            len == s@.len(),
            0 <= i <= len,
            forall|j: int| 0 <= j < i ==> is_digit_char(s@[j]),
            acc == digits_value(s@.take(i as int)),
        decreases len - i,
    {
        let c = s.get_char(i);
        if c < '0' || c > '9' {
            return None;
        }
        let d: u64 = (c as u8 - ('0' as u8)) as u64;
        proof {
            lemma_digits_value_step(s@, i as int);
            assert(d == digit_value(s@[i as int]));
        }
        let overflowed: bool;
        let mut next: u64 = 0;
        match acc.checked_mul(10) {
            Some(v) => {
                match v.checked_add(d) {
                    Some(w) => {
                        overflowed = false;
                        next = w;
                    },
                    None => {
                        overflowed = true;
                    },
                }
            },
            None => {
                overflowed = true;
            },
        }
        if overflowed {
            proof {
                if all_digits(s@) {
                    lemma_digits_value_prefix(s@, i + 1);
                }
            }
            return None;
        }
        acc = next;
        i += 1;
    }
    proof {
        assert(s@.take(len as int) =~= s@);
        assert(all_digits(s@));
    }
    Some(acc)
}

/// The parts of `s` between occurrences of `sep`: splitting the empty
/// string gives one empty part, and every separator starts a new part.
pub open spec fn split_on(s: Seq<char>, sep: char) -> Seq<Seq<char>>
    decreases s.len(),
{
    if s.len() == 0 {
        seq![Seq::<char>::empty()]
    } else if s[0] == sep {
        seq![Seq::<char>::empty()] + split_on(s.skip(1), sep)
    } else {
        let rest = split_on(s.skip(1), sep);
        seq![seq![s[0]] + rest[0]] + rest.skip(1)
    }
}

/// Splitting always yields at least one part.
pub proof fn lemma_split_on_len(s: Seq<char>, sep: char)
    ensures
        split_on(s, sep).len() >= 1,
    decreases s.len(),
{
    if s.len() > 0 {
        lemma_split_on_len(s.skip(1), sep);
    }
}

/// When the first separator of `s` stands at position `k`, the first part
/// is everything before it and the rest splits the remainder; a string
/// without separators is one single part.
proof fn lemma_split_on_scan(s: Seq<char>, sep: char, k: int)
    requires
        0 <= k <= s.len(),
        forall|j: int| 0 <= j < k ==> s[j] != sep,
    ensures
        k < s.len() && s[k] == sep ==> split_on(s, sep) == seq![s.take(k)] + split_on(
            s.skip(k + 1),
            sep,
        ),
        k == s.len() ==> split_on(s, sep) == seq![s],
    decreases k,
{
    if k == 0 {
        if 0 < s.len() && s[0] == sep {
            assert(s.take(0) =~= Seq::<char>::empty());
            assert(seq![s.take(0)] + split_on(s.skip(1), sep) =~= seq![Seq::<char>::empty()]
                + split_on(s.skip(1), sep));
        } else if s.len() == 0 {
            assert(split_on(s, sep) =~~= seq![s]);
        }
    } else {
        let t = s.skip(1);
        assert(forall|j: int| 0 <= j < k - 1 ==> t[j] != sep);
        lemma_split_on_scan(t, sep, k - 1);
        lemma_split_on_len(t, sep);
        let rest = split_on(t, sep);
        if k < s.len() && s[k] == sep {
            assert(t[k - 1] == sep);
            assert(rest == seq![t.take(k - 1)] + split_on(t.skip(k), sep));
            assert(rest[0] == t.take(k - 1));
            assert(seq![s[0]] + t.take(k - 1) =~= s.take(k));
            assert(rest.skip(1) =~= split_on(t.skip(k), sep));
            assert(t.skip(k) =~= s.skip(k + 1));
            assert(split_on(s, sep) =~~= seq![s.take(k)] + split_on(s.skip(k + 1), sep));
        } else if k == s.len() {
            assert(rest == seq![t]);
            assert(rest[0] == t);
            assert(seq![s[0]] + t =~= s);
            assert(rest.skip(1) =~= Seq::<Seq<char>>::empty());
            assert(split_on(s, sep) =~~= seq![s]);
        }
    }
}

/// Splits `s` at every occurrence of `sep`, like `str::split`.
pub fn split_str(s: &str, sep: char) -> (parts: Vec<String>)
    ensures
        parts@.map_values(|p: String| p@) == split_on(s@, sep),
{
    let len = s.unicode_len();
    let mut parts: Vec<String> = Vec::new();
    let mut start: usize = 0;
    let mut i: usize = 0;
    proof {
        assert(s@.skip(0) =~= s@);
        assert(parts@.map_values(|p: String| p@) =~= Seq::<Seq<char>>::empty());
        assert(Seq::<Seq<char>>::empty() + split_on(s@, sep) =~= split_on(s@, sep));
    }
    while i < len
        invariant
            len == s@.len(),
            0 <= start <= i <= len,
            forall|j: int| start <= j < i ==> s@[j] != sep,
            split_on(s@, sep) == parts@.map_values(|p: String| p@) + split_on(
                s@.skip(start as int),
                sep,
            ),
        decreases len - i,
    {
        let c = s.get_char(i);
        if c == sep {
            let part = s.substring_char(start, i).to_owned();
            proof {
                let tail = s@.skip(start as int);
                assert(forall|j: int| 0 <= j < i - start ==> tail[j] != sep);
                lemma_split_on_scan(tail, sep, i - start);
                assert(tail[i - start] == sep);
                assert(tail.take(i - start) =~= s@.subrange(start as int, i as int));
                assert(tail.skip(i - start + 1) =~= s@.skip(i + 1));
                assert((parts@ + seq![part]).map_values(|p: String| p@) =~= parts@.map_values(
                    |p: String| p@,
                ) + seq![part@]);
                assert(parts@.push(part) =~= parts@ + seq![part]);
            }
            parts.push(part);
            proof {
                assert(split_on(s@, sep) =~~= parts@.map_values(|p: String| p@) + split_on(
                    s@.skip(i + 1),
                    sep,
                ));
            }
            start = i + 1;
        }
        i += 1;
    }
    let last = s.substring_char(start, len).to_owned();
    proof {
        let tail = s@.skip(start as int);
        assert(forall|j: int| 0 <= j < tail.len() ==> tail[j] != sep);
        lemma_split_on_scan(tail, sep, tail.len() as int);
        assert(tail =~= s@.subrange(start as int, len as int));
        assert((parts@ + seq![last]).map_values(|p: String| p@) =~= parts@.map_values(
            |p: String| p@,
        ) + seq![last@]);
        assert(parts@.push(last) =~= parts@ + seq![last]);
    }
    parts.push(last);
    proof {
        assert(parts@.map_values(|p: String| p@) =~~= split_on(s@, sep));
    }
    parts
}

} // verus!
