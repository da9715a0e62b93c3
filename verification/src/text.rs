//! Character-level helpers: building strings, reading them as characters,
//! and decimal integers.

use vstd::prelude::*;

verus! {

/// Appends one character to a string (`String::push`).
#[verifier::external_body]
pub(crate) fn string_push(s: &mut String, c: char)
    ensures
        final(s)@ == old(s)@.push(c),
{
    s.push(c);
}

/// The characters of a string slice, in order.
pub fn str_chars(s: &str) -> (cs: Vec<char>)
    ensures
        cs@ == s@,
{
    broadcast use vstd::string::axiom_spec_iter;

    let mut cs: Vec<char> = Vec::new();
    for c in it: s.chars()
        invariant
            it.seq() == s@,
            cs@ == it.seq().take(it.index() as int),
    {
        cs.push(c);
        assert(cs@ =~= it.seq().take(it.index() + 1));
    }
    assert(cs@ =~= s@);
    cs
}

/// Appends every character of `cs` to `s`, in order.
pub fn push_chars(s: &mut String, cs: &[char])
    ensures
        final(s)@ == old(s)@ + cs@,
{
    let mut i: usize = 0;
    while i < cs.len()
        invariant
            0 <= i <= cs@.len(),
            s@ == old(s)@ + cs@.subrange(0, i as int),
        decreases cs@.len() - i,
    {
        string_push(s, cs[i]);
        i = i + 1;
        assert(cs@.subrange(0, i as int) == cs@.subrange(0, i - 1).push(cs@[i - 1]));
    }
    assert(cs@.subrange(0, cs@.len() as int) == cs@);
}

/// A new string holding exactly the characters `cs`.
pub fn string_from_chars(cs: &[char]) -> (s: String)
    ensures
        s@ == cs@,
{
    let mut s = String::new();
    push_chars(&mut s, cs);
    s
}

} // verus!

verus! {

/// The text `str::to_lowercase` gives for `s`.
pub uninterp spec fn spec_to_lowercase(s: Seq<char>) -> Seq<char>;

/// The text `str::to_uppercase` gives for `s`.
pub uninterp spec fn spec_to_uppercase(s: Seq<char>) -> Seq<char>;

/// `str::to_lowercase`: the full Unicode lowercase mapping of `s`.
#[verifier::external_body]
pub(crate) fn to_lowercase(s: &str) -> (r: String)
    ensures
        r@ == spec_to_lowercase(s@),
{
    s.to_lowercase()
}

/// `str::to_uppercase`: the full Unicode uppercase mapping of `s`.
#[verifier::external_body]
pub(crate) fn to_uppercase(s: &str) -> (r: String)
    ensures
        r@ == spec_to_uppercase(s@),
{
    s.to_uppercase()
}

} // verus!

verus! {

/// `c` is an ASCII decimal digit.
pub open spec fn is_digit(c: char) -> bool {
    '0' <= c && c <= '9'
}

/// Every character of `s` is an ASCII decimal digit.
pub open spec fn all_digits(s: Seq<char>) -> bool {
    forall|i: int| 0 <= i < s.len() ==> is_digit(#[trigger] s[i])
}

/// The value of a string of decimal digits.
pub open spec fn decimal_value(s: Seq<char>) -> int
    decreases s.len(),
{
    if s.len() == 0 {
        0
    } else {
        decimal_value(s.drop_last()) * 10 + (s.last() as int - '0' as int)
    }
}

/// What `str::parse::<u16>` accepts: an optional `+`, then one or more
/// ASCII digits whose value fits in a `u16`.
pub open spec fn spec_parse_u16(s: Seq<char>) -> Option<u16> {
    let d = if s.len() > 0 && s[0] == '+' {
        s.drop_first()
    } else {
        s
    };
    if d.len() > 0 && all_digits(d) && decimal_value(d) <= 65535 {
        Some(decimal_value(d) as u16)
    } else {
        None
    }
}

/// A digit string's value is at least that of any of its prefixes.
proof fn lemma_decimal_value_grows(s: Seq<char>, k: int)
    requires
        0 <= k <= s.len(),
        all_digits(s),
    ensures
        decimal_value(s) >= decimal_value(s.take(k)) >= 0,
    decreases s.len(),
{
    if s.len() > 0 {
        if k == s.len() {
            assert(s.take(k) =~= s);
            lemma_decimal_value_grows(s.drop_last(), k - 1);
            assert(s.drop_last().take(k - 1) =~= s.drop_last());
        } else {
            lemma_decimal_value_grows(s.drop_last(), k);
            assert(s.drop_last().take(k) =~= s.take(k));
        }
    }
}

/// Parses a decimal `u16` as `str::parse::<u16>` does: an optional leading
/// `+`, then ASCII digits only, and a value that fits.
pub fn parse_u16(s: &[char]) -> (r: Option<u16>)
    ensures
        r == spec_parse_u16(s@),
{
    let mut i: usize = 0;
    if s.len() > 0 && s[0] == '+' {
        i = 1;
    }
    let ghost d = if s@.len() > 0 && s@[0] == '+' {
        s@.drop_first()
    } else {
        s@
    };
    if i == s.len() {
        return None;
    }
    let mut acc: u32 = 0;
    let start = i;
    assert(d =~= s@.skip(start as int));
    while i < s.len()
        invariant
            start <= i <= s@.len(),
            d == s@.skip(start as int),
            d == (if s@.len() > 0 && s@[0] == '+' {
                s@.drop_first()
            } else {
                s@
            }),
            all_digits(d.take(i - start)),
            acc as int == decimal_value(d.take(i - start)),
            acc <= 65535,
        decreases s@.len() - i,
    {
        let c = s[i];
        if !('0' <= c && c <= '9') {
            assert(d[i - start] == c);
            assert(!is_digit(d[i - start]));
            assert(!all_digits(d));
            assert(spec_parse_u16(s@) is None);
            return None;
        }
        let v = (c as u32) - ('0' as u32);
        proof {
            assert(d.take(i - start + 1).drop_last() =~= d.take(i - start));
            assert(d.take(i - start + 1).last() == c);
        }
        let next = acc * 10 + v;
        if next > 65535 {
            proof {
                assert(is_digit(d[i - start]));
                assert(decimal_value(d.take(i - start + 1)) == next);
                assert(all_digits(d.take(i - start + 1)));
                if all_digits(d) {
                    lemma_decimal_value_grows(d, i - start + 1);
                    assert(decimal_value(d) > 65535);
                }
                assert(spec_parse_u16(s@) is None);
            }
            return None;
        }
        acc = next;
        i = i + 1;
    }
    assert(d.take(i - start) =~= d);
    Some(acc as u16)
}

/// `pat` occurs in `s` starting at `i`.
pub open spec fn occurs_at(s: Seq<char>, pat: Seq<char>, i: int) -> bool {
    0 <= i && i + pat.len() <= s.len() && s.subrange(i, i + pat.len()) == pat
}

/// `i` is where `pat` first occurs in `s`.
pub open spec fn first_occurrence(s: Seq<char>, pat: Seq<char>, i: int) -> bool {
    occurs_at(s, pat, i) && forall|j: int| 0 <= j < i ==> !#[trigger] occurs_at(s, pat, j)
}

/// `i` is where `c` last occurs in `s`.
pub open spec fn last_index_of(s: Seq<char>, c: char, i: int) -> bool {
    0 <= i < s.len() && s[i] == c && forall|j: int| i < j < s.len() ==> #[trigger] s[j] != c
}

/// The part of `s` before the first `c` (`split(c).next()`), or all of `s`.
pub open spec fn before_first(s: Seq<char>, c: char) -> Seq<char> {
    if exists|i: int| first_occurrence(s, seq![c], i) {
        s.take(choose|i: int| first_occurrence(s, seq![c], i))
    } else {
        s
    }
}

/// Where `pat` first occurs in `s`, if it does.
pub fn find_first(s: &Vec<char>, pat: &[char]) -> (r: Option<usize>)
    ensures
        r matches Some(i) ==> first_occurrence(s@, pat@, i as int),
        r is None ==> forall|j: int| !#[trigger] occurs_at(s@, pat@, j),
{
    if pat.len() > s.len() {
        return None;
    }
    if pat.len() == 0 {
        assert(s@.subrange(0, 0) =~= pat@);
        return Some(0);
    }
    let slen = s.len();
    let end = slen - pat.len() + 1;
    let mut i: usize = 0;
    while i < end
        invariant
            slen == s@.len(),
            end == s@.len() - pat@.len() + 1,
            0 < pat@.len() <= s@.len(),
            0 <= i <= end,
            forall|j: int| 0 <= j < i ==> !#[trigger] occurs_at(s@, pat@, j),
        decreases end - i,
    {
        let mut k: usize = 0;
        let mut same = true;
        while k < pat.len()
            invariant
                i < end,
                slen == s@.len(),
                end == s@.len() - pat@.len() + 1,
                0 <= k <= pat@.len(),
                same == forall|m: int| 0 <= m < k ==> s@[i + m] == pat@[m],
            decreases pat@.len() - k,
        {
            if s[i + k] != pat[k] {
                same = false;
            }
            k = k + 1;
        }
        if same {
            assert(s@.subrange(i as int, i + pat@.len()) =~= pat@);
            return Some(i);
        } else {
            assert(!occurs_at(s@, pat@, i as int)) by {
                if occurs_at(s@, pat@, i as int) {
                    assert forall|m: int| 0 <= m < pat@.len() implies s@[i + m] == pat@[m] by {
                        assert(s@.subrange(i as int, i + pat@.len())[m] == s@[i + m]);
                    }
                }
            }
        }
        i = i + 1;
    }
    assert forall|j: int| !#[trigger] occurs_at(s@, pat@, j) by {
        if 0 <= j < i {
        }
    }
    None
}

/// The part of `s` before the first `c`, or all of `s` if there is none.
pub fn prefix_before(s: &Vec<char>, c: char) -> (r: Vec<char>)
    ensures
        r@ == before_first(s@, c),
{
    let pat = [c];
    match find_first(s, &pat) {
        Some(i) => {
            proof {
                assert(pat@ == seq![c]);
                let k = choose|k: int| first_occurrence(s@, seq![c], k);
                if k < i {
                } else if i < k {
                }
                assert(k == i);
            }
            subrange_of(s, 0, i)
        },
        None => {
            proof {
                assert(pat@ == seq![c]);
            }
            subrange_of(s, 0, s.len())
        },
    }
}

/// Where `c` last occurs in `s`, if it does.
pub fn find_last(s: &Vec<char>, c: char) -> (r: Option<usize>)
    ensures
        r matches Some(i) ==> last_index_of(s@, c, i as int),
        r is None ==> forall|j: int| 0 <= j < s@.len() ==> #[trigger] s@[j] != c,
{
    let mut i = s.len();
    while i > 0
        invariant
            0 <= i <= s@.len(),
            forall|j: int| i <= j < s@.len() ==> #[trigger] s@[j] != c,
        decreases i,
    {
        if s[i - 1] == c {
            return Some(i - 1);
        }
        i = i - 1;
    }
    None
}

/// The characters `s[from..to]`.
pub fn subrange_of(s: &Vec<char>, from: usize, to: usize) -> (r: Vec<char>)
    requires
        from <= to <= s@.len(),
    ensures
        r@ == s@.subrange(from as int, to as int),
{
    let mut r: Vec<char> = Vec::new();
    let mut i = from;
    while i < to
        invariant
            from <= i <= to,
            to <= s@.len(),
            r@ == s@.subrange(from as int, i as int),
        decreases to - i,
    {
        r.push(s[i]);
        i = i + 1;
        assert(s@.subrange(from as int, i as int) =~= s@.subrange(from as int, i - 1).push(
            s@[i - 1],
        ));
    }
    r
}

} // verus!

verus! {

/// At most one place is where a pattern first occurs.
pub proof fn lemma_first_occurrence_unique(s: Seq<char>, pat: Seq<char>, i: int, k: int)
    requires
        first_occurrence(s, pat, i),
        first_occurrence(s, pat, k),
    ensures
        i == k,
{
    if i < k {
        assert(!occurs_at(s, pat, i));
    } else if k < i {
        assert(!occurs_at(s, pat, k));
    }
}

/// At most one place is where a character last occurs.
pub proof fn lemma_last_index_unique(s: Seq<char>, c: char, i: int, k: int)
    requires
        last_index_of(s, c, i),
        last_index_of(s, c, k),
    ensures
        i == k,
{
    if i < k {
        assert(s[k] != c);
    } else if k < i {
        assert(s[i] != c);
    }
}

/// The part of `s` after the first occurrence of `pat`, or all of `s` if it
/// does not occur (`split_once(pat)`'s second half, or `s`).
pub open spec fn after_first(s: Seq<char>, pat: Seq<char>) -> Seq<char> {
    if exists|i: int| first_occurrence(s, pat, i) {
        s.skip((choose|i: int| first_occurrence(s, pat, i)) + pat.len())
    } else {
        s
    }
}

/// `s` split at the last `c` (`rsplit_once(c)`), if there is one.
pub open spec fn split_at_last(s: Seq<char>, c: char) -> Option<(Seq<char>, Seq<char>)> {
    if exists|i: int| last_index_of(s, c, i) {
        let i = choose|i: int| last_index_of(s, c, i);
        Some((s.take(i), s.skip(i + 1)))
    } else {
        None
    }
}

/// The part of `s` after the first occurrence of `pat`, or all of `s`.
pub fn suffix_after(s: &Vec<char>, pat: &[char]) -> (r: Vec<char>)
    ensures
        r@ == after_first(s@, pat@),
{
    match find_first(s, pat) {
        Some(i) => {
            proof {
                let k = choose|k: int| first_occurrence(s@, pat@, k);
                lemma_first_occurrence_unique(s@, pat@, i as int, k);
            }
            let n = s.len();
            assert(i + pat@.len() <= n);
            subrange_of(s, i + pat.len(), n)
        },
        None => subrange_of(s, 0, s.len()),
    }
}

/// `s` split at its last `c`, if there is one.
pub fn split_last(s: &Vec<char>, c: char) -> (r: Option<(Vec<char>, Vec<char>)>)
    ensures
        r is None <==> split_at_last(s@, c) is None,
        r matches Some((a, b)) ==> split_at_last(s@, c) == Some((a@, b@)),
{
    match find_last(s, c) {
        Some(i) => {
            proof {
                let k = choose|k: int| last_index_of(s@, c, k);
                lemma_last_index_unique(s@, c, i as int, k);
            }
            let n = s.len();
            assert(i < n);
            Some((subrange_of(s, 0, i), subrange_of(s, i + 1, n)))
        },
        None => {
            proof {
                if exists|i: int| last_index_of(s@, c, i) {
                    let k = choose|k: int| last_index_of(s@, c, k);
                    assert(s@[k] == c);
                }
            }
            None
        },
    }
}

} // verus!

verus! {

/// The ASCII digit for `d` (0 to 9).
pub open spec fn digit_char(d: nat) -> char {
    ('0' as int + d) as char
}

/// The decimal text of `n`, without leading zeros (`"0"` for zero).
pub open spec fn decimal_text(n: nat) -> Seq<char>
    decreases n,
{
    if n < 10 {
        seq![digit_char(n)]
    } else {
        decimal_text(n / 10).push(digit_char(n % 10))
    }
}

/// The decimal text of `n`, as `n.to_string()` gives it.
pub fn u16_to_decimal(n: u16) -> (s: String)
    ensures
        s@ == decimal_text(n as nat),
{
    // Collect the digits least significant first, then emit them reversed.
    let mut digits: Vec<char> = Vec::new();
    let mut m: u16 = n;
    loop
        invariant_except_break
            m <= n,
            decimal_text(n as nat) == decimal_text(m as nat) + digits@.reverse(),
        ensures
            decimal_text(n as nat) == digits@.reverse(),
        decreases m,
    {
        let d = m % 10;
        let c = ((('0' as u8) + (d as u8)) as char);
        assert(c == digit_char(d as nat));
        if m < 10 {
            proof {
                assert(decimal_text(m as nat) == seq![c]);
                assert(digits@.push(c).reverse() =~= seq![c] + digits@.reverse());
            }
            let ghost before = digits@;
            digits.push(c);
            assert(decimal_text(n as nat) == digits@.reverse()) by {
                assert(before.push(c) == digits@);
            }
            break;
        }
        proof {
            assert(decimal_text(m as nat) == decimal_text((m / 10) as nat).push(c));
            assert(digits@.push(c).reverse() =~= seq![c] + digits@.reverse());
            assert(decimal_text((m / 10) as nat).push(c) + digits@.reverse() =~= decimal_text(
                (m / 10) as nat,
            ) + digits@.push(c).reverse());
        }
        digits.push(c);
        m = m / 10;
    }
    let mut s = String::new();
    let mut i = digits.len();
    assert(digits@.reverse().take(0) =~= Seq::<char>::empty());
    while i > 0
        invariant
            0 <= i <= digits@.len(),
            s@ == digits@.reverse().take(digits@.len() - i),
        decreases i,
    {
        string_push(&mut s, digits[i - 1]);
        i = i - 1;
        assert(digits@.reverse().take(digits@.len() - i) =~= digits@.reverse().take(
            digits@.len() - i - 1,
        ).push(digits@[i as int]));
    }
    assert(digits@.reverse().take(digits@.len() as int) =~= digits@.reverse());
    assert(decimal_text(n as nat) == digits@.reverse());
    s
}

} // verus!
