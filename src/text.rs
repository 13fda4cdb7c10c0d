//! Character-level helpers shared by every textual encoding of the runtime:
//! decimal numbers, splitting on a separator and joining with one.
use vstd::prelude::*;

verus! {

pub open spec fn is_digit(c: char) -> bool {
    '0' <= c && c <= '9'
}

pub open spec fn all_digits(s: Seq<char>) -> bool {
    forall|i: int| 0 <= i < s.len() ==> is_digit(#[trigger] s[i])
}

pub open spec fn digit_value(c: char) -> nat {
    (c as int - '0' as int) as nat
}

pub open spec fn digit_char(d: nat) -> char {
    if d == 0 {
        '0'
    } else if d == 1 {
        '1'
    } else if d == 2 {
        '2'
    } else if d == 3 {
        '3'
    } else if d == 4 {
        '4'
    } else if d == 5 {
        '5'
    } else if d == 6 {
        '6'
    } else if d == 7 {
        '7'
    } else if d == 8 {
        '8'
    } else {
        '9'
    }
}

/// The number that a string of decimal digits denotes.
pub open spec fn digits_value(s: Seq<char>) -> nat
    decreases s.len(),
{
    if s.len() == 0 {
        0
    } else {
        digits_value(s.drop_last()) * 10 + digit_value(s.last())
    }
}

/// The canonical decimal rendering of a natural number (no leading zeros).
pub open spec fn decimal_text(n: nat) -> Seq<char>
    decreases n,
{
    if n < 10 {
        seq![digit_char(n)]
    } else {
        decimal_text(n / 10).push(digit_char(n % 10))
    }
}

/// The pieces of `s` between occurrences of `sep`, as `str::split` gives them.
pub open spec fn split_on(s: Seq<char>, sep: char) -> Seq<Seq<char>>
    decreases s.len(),
{
    if s.len() == 0 {
        seq![Seq::<char>::empty()]
    } else {
        let rest = split_on(s.drop_last(), sep);
        if s.last() == sep {
            rest.push(Seq::<char>::empty())
        } else {
            rest.update(rest.len() - 1, rest.last().push(s.last()))
        }
    }
}

/// The pieces joined with `sep` between each two.
pub open spec fn join_with(parts: Seq<Seq<char>>, sep: char) -> Seq<char>
    decreases parts.len(),
{
    if parts.len() == 0 {
        Seq::<char>::empty()
    } else if parts.len() == 1 {
        parts[0]
    } else {
        join_with(parts.drop_last(), sep) + seq![sep] + parts.last()
    }
}

pub open spec fn free_of(s: Seq<char>, c: char) -> bool {
    forall|i: int| 0 <= i < s.len() ==> #[trigger] s[i] != c
}

/// Position of the last occurrence of `c` in `s`, or -1.
pub open spec fn last_index_of(s: Seq<char>, c: char) -> int
    decreases s.len(),
{
    if s.len() == 0 {
        -1
    } else if s.last() == c {
        s.len() - 1
    } else {
        last_index_of(s.drop_last(), c)
    }
}

pub proof fn lemma_split_len(s: Seq<char>, sep: char)
    ensures
        split_on(s, sep).len() >= 1,
    decreases s.len(),
{
    if s.len() > 0 {
        lemma_split_len(s.drop_last(), sep);
    }
}

/// Splitting a text free of the separator gives the text alone.
pub proof fn lemma_split_free(s: Seq<char>, sep: char)
    requires
        free_of(s, sep),
    ensures
        split_on(s, sep) == seq![s],
    decreases s.len(),
{
    if s.len() > 0 {
        assert(free_of(s.drop_last(), sep));
        lemma_split_free(s.drop_last(), sep);
        assert(s.last() == s[s.len() - 1]);
        assert(s.drop_last().push(s.last()) =~= s);
        assert(seq![s.drop_last()].update(0, s.drop_last().push(s.last())) =~= seq![s]);
    } else {
        assert(s =~= Seq::<char>::empty());
    }
}

/// Splitting `a`, the separator, then a piece free of it, adds that piece to the split of `a`.
pub proof fn lemma_split_append(a: Seq<char>, b: Seq<char>, sep: char)
    requires
        free_of(b, sep),
    ensures
        split_on(a + seq![sep] + b, sep) == split_on(a, sep).push(b),
    decreases b.len(),
{
    let s = a + seq![sep] + b;
    lemma_split_len(a, sep);
    if b.len() == 0 {
        assert(s.drop_last() =~= a);
        assert(b =~= Seq::<char>::empty());
    } else {
        let b0 = b.drop_last();
        assert(free_of(b0, sep));
        lemma_split_append(a, b0, sep);
        assert(s.drop_last() =~= a + seq![sep] + b0);
        assert(s.last() == b.last());
        assert(b.last() == b[b.len() - 1]);
        let rest = split_on(a, sep).push(b0);
        assert(b0.push(b.last()) =~= b);
        assert(rest.last() == b0);
        assert(rest.update(rest.len() - 1, b0.push(b.last())) =~= split_on(a, sep).push(b));
    }
}

/// Splitting a join of separator-free pieces gives the pieces back.
pub proof fn lemma_split_join(parts: Seq<Seq<char>>, sep: char)
    requires
        parts.len() >= 1,
        forall|i: int| 0 <= i < parts.len() ==> free_of(#[trigger] parts[i], sep),
    ensures
        split_on(join_with(parts, sep), sep) == parts,
    decreases parts.len(),
{
    if parts.len() == 1 {
        lemma_split_free(parts[0], sep);
        assert(seq![parts[0]] =~= parts);
    } else {
        let init = parts.drop_last();
        assert forall|i: int| 0 <= i < init.len() implies free_of(#[trigger] init[i], sep) by {
            assert(init[i] == parts[i]);
        }
        lemma_split_join(init, sep);
        assert(free_of(parts[parts.len() - 1], sep));
        lemma_split_append(join_with(init, sep), parts.last(), sep);
        assert(init.push(parts.last()) =~= parts);
    }
}

/// In `a`, the separator, then a piece free of it, the last separator stands right after `a`.
pub proof fn lemma_last_index_append(a: Seq<char>, b: Seq<char>, c: char)
    requires
        free_of(b, c),
    ensures
        last_index_of(a + seq![c] + b, c) == a.len(),
    decreases b.len(),
{
    let s = a + seq![c] + b;
    if b.len() == 0 {
        assert(s.last() == c);
    } else {
        let b0 = b.drop_last();
        assert(free_of(b0, c));
        lemma_last_index_append(a, b0, c);
        assert(s.drop_last() =~= a + seq![c] + b0);
        assert(b.last() == b[b.len() - 1]);
    }
}

pub proof fn lemma_last_index_bounds(s: Seq<char>, c: char)
    ensures
        -1 <= last_index_of(s, c) < s.len(),
        last_index_of(s, c) >= 0 ==> s[last_index_of(s, c)] == c,
        free_of(s.subrange(last_index_of(s, c) + 1, s.len() as int), c),
        last_index_of(s, c) == -1 <==> free_of(s, c),
    decreases s.len(),
{
    if s.len() > 0 {
        lemma_last_index_bounds(s.drop_last(), c);
        if s.last() != c {
            let k = last_index_of(s, c);
            assert forall|i: int|
                0 <= i < s.subrange(k + 1, s.len() as int).len() implies #[trigger] s.subrange(
                k + 1,
                s.len() as int,
            )[i] != c by {
                if k + 1 + i < s.len() - 1 {
                    assert(s.subrange(k + 1, s.len() as int)[i] == s.drop_last().subrange(
                        k + 1,
                        s.len() - 1,
                    )[i]);
                }
            }
            if k == -1 {
                assert forall|i: int| 0 <= i < s.len() implies #[trigger] s[i] != c by {
                    assert(s.subrange(0, s.len() as int)[i] == s[i]);
                }
            }
        } else {
            assert(s[s.len() - 1] == c);
        }
    }
}

pub proof fn lemma_digit_char(d: nat)
    requires
        d < 10,
    ensures
        is_digit(digit_char(d)),
        digit_value(digit_char(d)) == d,
{
    if d == 0 {
        assert(digit_char(d) == '0');
    } else if d == 1 {
        assert(digit_char(d) == '1');
    } else if d == 2 {
        assert(digit_char(d) == '2');
    } else if d == 3 {
        assert(digit_char(d) == '3');
    } else if d == 4 {
        assert(digit_char(d) == '4');
    } else if d == 5 {
        assert(digit_char(d) == '5');
    } else if d == 6 {
        assert(digit_char(d) == '6');
    } else if d == 7 {
        assert(digit_char(d) == '7');
    } else if d == 8 {
        assert(digit_char(d) == '8');
    } else {
        assert(digit_char(d) == '9');
    }
}

pub proof fn lemma_decimal_text_digits(n: nat)
    ensures
        decimal_text(n).len() >= 1,
        all_digits(decimal_text(n)),
        digits_value(decimal_text(n)) == n,
    decreases n,
{
    if n < 10 {
        lemma_digit_char(n);
        let t = decimal_text(n);
        assert(t.drop_last() =~= Seq::<char>::empty());
        assert(t.last() == digit_char(n));
        assert(digits_value(t) == digits_value(t.drop_last()) * 10 + digit_value(t.last()));
        assert(digits_value(Seq::<char>::empty()) == 0);
    } else {
        lemma_decimal_text_digits(n / 10);
        lemma_digit_char(n % 10);
        let t = decimal_text(n);
        assert(t.drop_last() =~= decimal_text(n / 10));
        assert(t.last() == digit_char(n % 10));
        assert(all_digits(t)) by {
            assert forall|i: int| 0 <= i < t.len() implies is_digit(#[trigger] t[i]) by {
                if i < t.len() - 1 {
                    assert(t[i] == decimal_text(n / 10)[i]);
                }
            }
        }
        assert(digits_value(t) == digits_value(t.drop_last()) * 10 + digit_value(t.last()));
        assert((n / 10) * 10 + n % 10 == n);
    }
}

pub proof fn lemma_digits_free(s: Seq<char>, c: char)
    requires
        all_digits(s),
        !is_digit(c),
    ensures
        free_of(s, c),
{
}

/// A value read from more digits is at least the value of any prefix.
pub proof fn lemma_digits_value_prefix(s: Seq<char>, k: int)
    requires
        0 <= k <= s.len(),
        all_digits(s),
    ensures
        digits_value(s.subrange(0, k)) <= digits_value(s),
    decreases s.len() - k,
{
    if k < s.len() {
        lemma_digits_value_prefix(s, k + 1);
        assert(s.subrange(0, k + 1).drop_last() =~= s.subrange(0, k));
    } else {
        assert(s.subrange(0, k) =~= s);
    }
}

/// Relies on `String::push`: the character is appended.
#[verifier::external_body]
pub(crate) fn push_char(s: &mut String, c: char)
    ensures
        final(s)@ == old(s)@.push(c),
{
    s.push(c)
}

/// The characters of a string, one by one.
pub fn chars_of(s: &str) -> (r: Vec<char>)
    ensures
        r@ == s@,
{
    let n = s.unicode_len();
    let mut r: Vec<char> = Vec::new();
    let mut i: usize = 0;
    while i < n
        invariant
            n == s@.len(),
            i <= n,
            r@ == s@.subrange(0, i as int),
        decreases n - i,
    {
        let c = s.get_char(i);
        r.push(c);
        i = i + 1;
        assert(r@ =~= s@.subrange(0, i as int));
    }
    assert(r@ =~= s@);
    r
}

/// The characters of `v` in `lo..hi` as a string.
pub fn string_of_range(v: &Vec<char>, lo: usize, hi: usize) -> (r: String)
    requires
        lo <= hi <= v@.len(),
    ensures
        r@ == v@.subrange(lo as int, hi as int),
{
    let mut r = String::new();
    let mut i: usize = lo;
    while i < hi
        invariant
            lo <= i <= hi <= v@.len(),
            r@ == v@.subrange(lo as int, i as int),
        decreases hi - i,
    {
        push_char(&mut r, v[i]);
        i = i + 1;
        assert(r@ =~= v@.subrange(lo as int, i as int));
    }
    r
}

/// Appends the characters of `s` to `out`.
pub fn push_str(out: &mut String, s: &String)
    ensures
        final(out)@ == old(out)@ + s@,
{
    out.append(s.as_str());
}

fn digit_to_char(d: u32) -> (c: char)
    requires
        d < 10,
    ensures
        c == digit_char(d as nat),
{
    if d == 0 {
        '0'
    } else if d == 1 {
        '1'
    } else if d == 2 {
        '2'
    } else if d == 3 {
        '3'
    } else if d == 4 {
        '4'
    } else if d == 5 {
        '5'
    } else if d == 6 {
        '6'
    } else if d == 7 {
        '7'
    } else if d == 8 {
        '8'
    } else {
        '9'
    }
}

/// Appends the decimal rendering of `n`.
pub fn push_decimal(out: &mut String, n: u64)
    ensures
        final(out)@ == old(out)@ + decimal_text(n as nat),
    decreases n,
{
    if n < 10 {
        push_char(out, digit_to_char(n as u32));
        assert(decimal_text(n as nat) =~= seq![digit_char(n as nat)]);
    } else {
        push_decimal(out, n / 10);
        push_char(out, digit_to_char((n % 10) as u32));
    }
}

/// Reads the decimal number written in `v[lo..hi]`, if it is one that fits in `max`.
pub fn parse_decimal(v: &Vec<char>, lo: usize, hi: usize, max: u64) -> (r: Option<u64>)
    requires
        lo <= hi <= v@.len(),
    ensures
        r is Some <==> (lo < hi && all_digits(v@.subrange(lo as int, hi as int)) && digits_value(
            v@.subrange(lo as int, hi as int),
        ) <= max),
        r is Some ==> r->Some_0 == digits_value(v@.subrange(lo as int, hi as int)),
{
    if lo == hi {
        return None;
    }
    let ghost s = v@.subrange(lo as int, hi as int);
    let mut acc: u128 = 0;
    let mut i: usize = lo;
    while i < hi
        invariant
            lo <= i <= hi <= v@.len(),
            s == v@.subrange(lo as int, hi as int),
            all_digits(v@.subrange(lo as int, i as int)),
            acc == digits_value(v@.subrange(lo as int, i as int)),
            acc <= max,
        decreases hi - i,
    {
        let c = v[i];
        if !('0' <= c && c <= '9') {
            assert(s[i - lo] == c);
            return None;
        }
        let d = (c as u32 - '0' as u32) as u128;
        assert(d <= 9);
        assert(acc * 10 + d < 0x1_0000_0000_0000_0000_0000) by (nonlinear_arith)
            requires
                acc <= max,
                max <= 0xFFFF_FFFF_FFFF_FFFF,
                d <= 9,
        ;
        acc = acc * 10 + d;
        proof {
            let p = v@.subrange(lo as int, i + 1);
            assert(p.drop_last() =~= v@.subrange(lo as int, i as int));
            assert(p.last() == c);
        }
        i = i + 1;
        assert(all_digits(v@.subrange(lo as int, i as int))) by {
            assert forall|j: int| 0 <= j < i - lo implies is_digit(
                #[trigger] v@.subrange(lo as int, i as int)[j],
            ) by {
                if j < i - 1 - lo {
                    assert(v@.subrange(lo as int, i as int)[j] == v@.subrange(
                        lo as int,
                        i - 1,
                    )[j]);
                }
            }
        }
        if acc > max as u128 {
            proof {
                if all_digits(s) {
                    lemma_digits_value_prefix(s, i - lo);
                    assert(s.subrange(0, i - lo) =~= v@.subrange(lo as int, i as int));
                }
            }
            return None;
        }
    }
    assert(v@.subrange(lo as int, i as int) =~= s);
    Some(acc as u64)
}

/// The text `v[lo..hi]` without the spaces at its two ends.
pub open spec fn trim_front(s: Seq<char>) -> Seq<char>
    decreases s.len(),
{
    if s.len() > 0 && s[0] == ' ' {
        trim_front(s.drop_first())
    } else {
        s
    }
}

pub open spec fn trim_back(s: Seq<char>) -> Seq<char>
    decreases s.len(),
{
    if s.len() > 0 && s.last() == ' ' {
        trim_back(s.drop_last())
    } else {
        s
    }
}

pub open spec fn trim_spaces(s: Seq<char>) -> Seq<char> {
    trim_back(trim_front(s))
}

/// The bounds of `v[lo..hi]` once the spaces at both ends are cut off.
pub fn trim_bounds(v: &Vec<char>, lo: usize, hi: usize) -> (r: (usize, usize))
    requires
        lo <= hi <= v@.len(),
    ensures
        lo <= r.0 <= r.1 <= hi,
        v@.subrange(r.0 as int, r.1 as int) == trim_spaces(v@.subrange(lo as int, hi as int)),
{
    let mut a: usize = lo;
    while a < hi && v[a] == ' '
        invariant
            lo <= a <= hi <= v@.len(),
            trim_front(v@.subrange(a as int, hi as int)) == trim_front(
                v@.subrange(lo as int, hi as int),
            ),
        decreases hi - a,
    {
        assert(v@.subrange(a as int, hi as int).drop_first() =~= v@.subrange(a + 1, hi as int));
        a = a + 1;
    }
    let mut b: usize = hi;
    while b > a && v[b - 1] == ' '
        invariant
            a <= b <= hi <= v@.len(),
            trim_back(v@.subrange(a as int, b as int)) == trim_back(
                v@.subrange(a as int, hi as int),
            ),
        decreases b - a,
    {
        assert(v@.subrange(a as int, b as int).drop_last() =~= v@.subrange(a as int, b - 1));
        b = b - 1;
    }
    assert(trim_front(v@.subrange(a as int, hi as int)) == v@.subrange(a as int, hi as int));
    assert(trim_back(v@.subrange(a as int, b as int)) == v@.subrange(a as int, b as int));
    (a, b)
}

/// The pieces of `v[lo..hi]` between occurrences of `sep`.
pub fn split_chars(v: &Vec<char>, lo: usize, hi: usize, sep: char) -> (r: Vec<String>)
    requires
        lo <= hi <= v@.len(),
    ensures
        r.deep_view() == split_on(v@.subrange(lo as int, hi as int), sep),
{
    let mut pieces: Vec<String> = Vec::new();
    let mut start: usize = lo;
    let mut i: usize = lo;
    assert(split_on(v@.subrange(lo as int, lo as int), sep) =~= seq![Seq::<char>::empty()]);
    assert(pieces.deep_view() =~= Seq::<Seq<char>>::empty());
    assert(v@.subrange(lo as int, lo as int) =~= Seq::<char>::empty());
    assert(pieces.deep_view().push(v@.subrange(lo as int, lo as int)) =~= seq![
        Seq::<char>::empty(),
    ]);
    while i < hi
        invariant
            lo <= start <= i <= hi <= v@.len(),
            pieces.deep_view().push(v@.subrange(start as int, i as int)) == split_on(
                v@.subrange(lo as int, i as int),
                sep,
            ),
        decreases hi - i,
    {
        let c = v[i];
        let ghost sub = v@.subrange(lo as int, i + 1);
        let ghost rest = pieces.deep_view().push(v@.subrange(start as int, i as int));
        assert(sub.drop_last() =~= v@.subrange(lo as int, i as int));
        assert(sub.last() == c);
        if c == sep {
            let piece = string_of_range(v, start, i);
            let ghost before = pieces.deep_view();
            pieces.push(piece);
            assert(pieces.deep_view() =~= before.push(v@.subrange(start as int, i as int)));
            start = i + 1;
            assert(v@.subrange(start as int, i + 1) =~= Seq::<char>::empty());
            assert(pieces.deep_view().push(v@.subrange(start as int, i + 1)) =~= rest.push(
                Seq::<char>::empty(),
            ));
        } else {
            assert(v@.subrange(start as int, i + 1) =~= v@.subrange(start as int, i as int).push(
                c,
            ));
            assert(rest.update(rest.len() - 1, rest.last().push(c)) =~= pieces.deep_view().push(
                v@.subrange(start as int, i + 1),
            ));
        }
        i = i + 1;
    }
    let last = string_of_range(v, start, hi);
    let ghost before = pieces.deep_view();
    pieces.push(last);
    assert(pieces.deep_view() =~= before.push(v@.subrange(start as int, hi as int)));
    pieces
}

/// Position of the last `c` in `v`, if any.
pub fn last_index(v: &Vec<char>, c: char) -> (r: Option<usize>)
    ensures
        match r {
            Some(k) => k as int == last_index_of(v@, c),
            None => last_index_of(v@, c) == -1,
        },
{
    let mut i: usize = v.len();
    assert(v@.subrange(0, i as int) =~= v@);
    while i > 0
        invariant
            i <= v@.len(),
            last_index_of(v@, c) == last_index_of(v@.subrange(0, i as int), c),
        decreases i,
    {
        let ghost p = v@.subrange(0, i as int);
        assert(p.drop_last() =~= v@.subrange(0, i - 1));
        if v[i - 1] == c {
            return Some(i - 1);
        }
        i = i - 1;
    }
    None
}

pub proof fn lemma_deep_view_push(before: Seq<String>, after: Vec<String>, x: String)
    requires
        after@ == before.push(x),
    ensures
        after.deep_view() == before.map_values(|s: String| s@).push(x@),
{
    assert(after.deep_view() =~= before.map_values(|s: String| s@).push(x@)) by {
        assert forall|i: int| 0 <= i < after@.len() implies #[trigger] after.deep_view()[i]
            == before.map_values(|s: String| s@).push(x@)[i] by {
            assert(after.deep_view()[i] == after@[i]@);
        }
    }
}

pub proof fn lemma_deep_view_is_map(v: Vec<String>)
    ensures
        v.deep_view() == v@.map_values(|s: String| s@),
{
    assert(v.deep_view() =~= v@.map_values(|s: String| s@)) by {
        assert forall|i: int| 0 <= i < v@.len() implies #[trigger] v.deep_view()[i]
            == v@.map_values(|s: String| s@)[i] by {
            assert(v.deep_view()[i] == v@[i]@);
        }
    }
}

/// A copy of a list of strings.
pub fn copy_strings(v: &Vec<String>) -> (r: Vec<String>)
    ensures
        r.deep_view() == v.deep_view(),
{
    let mut r: Vec<String> = Vec::new();
    let mut i: usize = 0;
    while i < v.len()
        invariant
            i <= v@.len(),
            r.deep_view() == v.deep_view().subrange(0, i as int),
        decreases v@.len() - i,
    {
        let ghost before = r@;
        proof {
            lemma_deep_view_is_map(r);
        }
        let c = v[i].clone();
        r.push(c);
        proof {
            lemma_deep_view_push(before, r, c);
            lemma_deep_view_is_map(*v);
        }
        i = i + 1;
        assert(r.deep_view() =~= v.deep_view().subrange(0, i as int));
    }
    assert(v.deep_view().subrange(0, i as int) =~= v.deep_view());
    r
}

/// Whether `v[lo..hi]` starts with `p`.
pub fn has_prefix(v: &Vec<char>, lo: usize, hi: usize, p: &str) -> (r: bool)
    requires
        lo <= hi <= v@.len(),
    ensures
        r == (hi - lo >= p@.len() && v@.subrange(lo as int, lo + p@.len()) == p@),
{
    let pc = chars_of(p);
    if hi - lo < pc.len() {
        return false;
    }
    let mut i: usize = 0;
    while i < pc.len()
        invariant
            i <= pc@.len(),
            pc@ == p@,
            lo + pc@.len() <= hi <= v@.len(),
            forall|j: int| 0 <= j < i ==> v@[lo + j] == pc@[j],
        decreases pc@.len() - i,
    {
        if v[lo + i] != pc[i] {
            assert(v@.subrange(lo as int, lo + p@.len())[i as int] != p@[i as int]);
            return false;
        }
        i = i + 1;
    }
    assert(v@.subrange(lo as int, lo + p@.len()) =~= p@);
    true
}

/// Position of the first occurrence of `c` in `s`, or -1.
pub open spec fn first_index_of(s: Seq<char>, c: char) -> int
    decreases s.len(),
{
    if s.len() == 0 {
        -1
    } else if s[0] == c {
        0
    } else if first_index_of(s.drop_first(), c) < 0 {
        -1
    } else {
        first_index_of(s.drop_first(), c) + 1
    }
}

pub proof fn lemma_first_index_bounds(s: Seq<char>, c: char)
    ensures
        -1 <= first_index_of(s, c) < s.len(),
        first_index_of(s, c) >= 0 ==> s[first_index_of(s, c)] == c,
    decreases s.len(),
{
    if s.len() > 0 && s[0] != c {
        lemma_first_index_bounds(s.drop_first(), c);
    }
}

/// In a piece free of `c`, then `c`, then anything, the first `c` stands right after the piece.
pub proof fn lemma_first_index_prepend(a: Seq<char>, b: Seq<char>, c: char)
    requires
        free_of(a, c),
    ensures
        first_index_of(a + seq![c] + b, c) == a.len(),
    decreases a.len(),
{
    let s = a + seq![c] + b;
    if a.len() > 0 {
        assert(free_of(a.drop_first(), c));
        lemma_first_index_prepend(a.drop_first(), b, c);
        assert(s.drop_first() =~= a.drop_first() + seq![c] + b);
        assert(s[0] == a[0]);
    }
}

/// Position of the first `c` in `v[lo..hi]`, counted from `lo`, if any.
pub fn first_index(v: &Vec<char>, lo: usize, hi: usize, c: char) -> (r: Option<usize>)
    requires
        lo <= hi <= v@.len(),
    ensures
        match r {
            Some(k) => k as int == first_index_of(v@.subrange(lo as int, hi as int), c),
            None => first_index_of(v@.subrange(lo as int, hi as int), c) == -1,
        },
{
    let mut i: usize = lo;
    proof {
        lemma_first_index_bounds(v@.subrange(lo as int, hi as int), c);
    }
    while i < hi
        invariant
            lo <= i <= hi <= v@.len(),
            first_index_of(v@.subrange(lo as int, hi as int), c) == (if first_index_of(
                v@.subrange(i as int, hi as int),
                c,
            ) < 0 {
                -1
            } else {
                first_index_of(v@.subrange(i as int, hi as int), c) + (i - lo)
            }),
        decreases hi - i,
    {
        let ghost t = v@.subrange(i as int, hi as int);
        assert(t.drop_first() =~= v@.subrange(i + 1, hi as int));
        if v[i] == c {
            return Some(i - lo);
        }
        i = i + 1;
    }
    None
}

/// Whether `s` is exactly the literal `lit`.
pub fn text_is(s: &String, lit: &str) -> (r: bool)
    ensures
        r == (s@ == lit@),
{
    let v = chars_of(s.as_str());
    let n = lit.unicode_len();
    if v.len() != n {
        return false;
    }
    let r = has_prefix(&v, 0, v.len(), lit);
    assert(v@.subrange(0, n as int) =~= v@);
    r
}

pub proof fn lemma_concat_free(a: Seq<char>, b: Seq<char>, c: char)
    requires
        free_of(a, c),
        free_of(b, c),
    ensures
        free_of(a + b, c),
{
    assert forall|i: int| 0 <= i < (a + b).len() implies #[trigger] (a + b)[i] != c by {
        if i < a.len() {
            assert((a + b)[i] == a[i]);
        } else {
            assert((a + b)[i] == b[i - a.len()]);
        }
    }
}

/// Joining pieces free of `c` with a separator other than `c` gives a text free of `c`.
pub proof fn lemma_join_free(parts: Seq<Seq<char>>, sep: char, c: char)
    requires
        sep != c,
        forall|i: int| 0 <= i < parts.len() ==> free_of(#[trigger] parts[i], c),
    ensures
        free_of(join_with(parts, sep), c),
    decreases parts.len(),
{
    if parts.len() == 1 {
        assert(free_of(parts[0], c));
    } else if parts.len() > 1 {
        let init = parts.drop_last();
        assert forall|i: int| 0 <= i < init.len() implies free_of(#[trigger] init[i], c) by {
            assert(init[i] == parts[i]);
        }
        lemma_join_free(init, sep, c);
        lemma_concat_free(join_with(init, sep), seq![sep], c);
        assert(free_of(parts[parts.len() - 1], c));
        lemma_concat_free(join_with(init, sep) + seq![sep], parts.last(), c);
    }
}

} // verus!
