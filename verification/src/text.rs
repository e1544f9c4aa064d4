//! Character-sequence utilities shared by the shell and the web server.
use vstd::prelude::*;

verus! {

/// The Unicode `White_Space` property, which `char::is_whitespace` tests.
pub open spec fn is_ws(c: char) -> bool {
    ||| c == ' '
    ||| ('\t' <= c && c <= '\r')
    ||| c == '\u{85}'
    ||| c == '\u{a0}'
    ||| c == '\u{1680}'
    ||| ('\u{2000}' <= c && c <= '\u{200a}')
    ||| c == '\u{2028}'
    ||| c == '\u{2029}'
    ||| c == '\u{202f}'
    ||| c == '\u{205f}'
    ||| c == '\u{3000}'
}

/// Whether `c` is white space in the sense of `char::is_whitespace`.
pub fn is_whitespace(c: char) -> (b: bool)
    ensures
        b == is_ws(c),
{
    c == ' ' || ('\t' <= c && c <= '\r') || c == '\u{85}' || c == '\u{a0}' || c == '\u{1680}'
        || ('\u{2000}' <= c && c <= '\u{200a}') || c == '\u{2028}' || c == '\u{2029}'
        || c == '\u{202f}' || c == '\u{205f}' || c == '\u{3000}'
}

} // verus!

verus! {

/// Appends one character to a string (`String::push`).
#[verifier::external_body]
pub(crate) fn string_push(s: &mut String, c: char)
    ensures
        final(s)@ == old(s)@.push(c),
{
    s.push(c);
}

/// The characters of `s`, in order.
pub fn chars_of(s: &str) -> (v: Vec<char>)
    ensures
        v@ == s@,
{
    broadcast use vstd::string::group_string_axioms;
    let mut v: Vec<char> = Vec::new();
    for c in it: s.chars()
        invariant
            v@ == it.seq().take(it.index() as int),
            it.seq() == s@,
    {
        v.push(c);
    }
    v
}

/// The string made of the characters `v[from..to]`.
pub fn string_of(v: &Vec<char>, from: usize, to: usize) -> (s: String)
    requires
        from <= to <= v@.len(),
    ensures
        s@ == v@.subrange(from as int, to as int),
{
    let mut s = String::new();
    let mut i = from;
    while i < to
        invariant
            from <= i <= to <= v@.len(),
            s@ == v@.subrange(from as int, i as int),
        decreases to - i,
    {
        string_push(&mut s, v[i]);
        i += 1;
        assert(s@ =~= v@.subrange(from as int, i as int));
    }
    s
}

} // verus!

verus! {

/// The position of the first occurrence of `c` in `s`.
pub open spec fn first_index(s: Seq<char>, c: char) -> Option<int>
    decreases s.len(),
{
    if s.len() == 0 {
        None
    } else if s[0] == c {
        Some(0)
    } else {
        match first_index(s.drop_first(), c) {
            Some(i) => Some(i + 1),
            None => None,
        }
    }
}

/// The position of the last occurrence of `c` in `s`.
pub open spec fn last_index(s: Seq<char>, c: char) -> Option<int>
    decreases s.len(),
{
    if s.len() == 0 {
        None
    } else if s.last() == c {
        Some(s.len() - 1)
    } else {
        last_index(s.drop_last(), c)
    }
}

/// `c` occurs in `s` at position `i` and nowhere before it.
pub proof fn lemma_first_index_at(s: Seq<char>, c: char, i: int)
    requires
        0 <= i < s.len(),
        s[i] == c,
        forall|j: int| 0 <= j < i ==> s[j] != c,
    ensures
        first_index(s, c) == Some(i),
    decreases s.len(),
{
    if i > 0 {
        lemma_first_index_at(s.drop_first(), c, i - 1);
    }
}

/// `c` does not occur in `s`.
pub proof fn lemma_first_index_none(s: Seq<char>, c: char)
    requires
        forall|j: int| 0 <= j < s.len() ==> s[j] != c,
    ensures
        first_index(s, c) is None,
        last_index(s, c) is None,
    decreases s.len(),
{
    if s.len() > 0 {
        lemma_first_index_none(s.drop_first(), c);
        lemma_first_index_none(s.drop_last(), c);
    }
}

/// `c` occurs in `s` at position `i` and nowhere after it.
pub proof fn lemma_last_index_at(s: Seq<char>, c: char, i: int)
    requires
        0 <= i < s.len(),
        s[i] == c,
        forall|j: int| i < j < s.len() ==> s[j] != c,
    ensures
        last_index(s, c) == Some(i),
    decreases s.len(),
{
    if i < s.len() - 1 {
        lemma_last_index_at(s.drop_last(), c, i);
    }
}

/// What `first_index` and `last_index` return is an occurrence, and nothing
/// precedes (follows) it.
pub proof fn lemma_index_props(s: Seq<char>, c: char)
    ensures
        first_index(s, c) matches Some(i) ==> 0 <= i < s.len() && s[i] == c && forall|j: int|
            0 <= j < i ==> s[j] != c,
        first_index(s, c) is None ==> forall|j: int| 0 <= j < s.len() ==> s[j] != c,
        last_index(s, c) matches Some(i) ==> 0 <= i < s.len() && s[i] == c && forall|j: int|
            i < j < s.len() ==> s[j] != c,
        last_index(s, c) is None ==> forall|j: int| 0 <= j < s.len() ==> s[j] != c,
    decreases s.len(),
{
    if s.len() > 0 {
        lemma_index_props(s.drop_first(), c);
        lemma_index_props(s.drop_last(), c);
        assert forall|j: int| 1 <= j < s.len() implies s[j] == s.drop_first()[j - 1] by {}
        assert forall|j: int| 0 <= j < s.len() - 1 implies s[j] == s.drop_last()[j] by {}
    }
}

/// Finds the first occurrence of `c` in `v`.
pub fn find_first(v: &Vec<char>, c: char) -> (r: Option<usize>)
    ensures
        match r {
            Some(i) => first_index(v@, c) == Some(i as int),
            None => first_index(v@, c) is None,
        },
{
    let mut i: usize = 0;
    while i < v.len()
        invariant
            i <= v@.len(),
            forall|j: int| 0 <= j < i ==> v@[j] != c,
        decreases v.len() - i,
    {
        if v[i] == c {
            proof {
                lemma_first_index_at(v@, c, i as int);
            }
            return Some(i);
        }
        i += 1;
    }
    proof {
        lemma_first_index_none(v@, c);
    }
    None
}

/// Finds the last occurrence of `c` in `v`.
pub fn find_last(v: &Vec<char>, c: char) -> (r: Option<usize>)
    ensures
        match r {
            Some(i) => last_index(v@, c) == Some(i as int),
            None => last_index(v@, c) is None,
        },
{
    let mut i: usize = v.len();
    while i > 0
        invariant
            i <= v@.len(),
            forall|j: int| i <= j < v@.len() ==> v@[j] != c,
        decreases i,
    {
        if v[i - 1] == c {
            proof {
                lemma_last_index_at(v@, c, i - 1);
            }
            return Some(i - 1);
        }
        i -= 1;
    }
    proof {
        lemma_first_index_none(v@, c);
    }
    None
}

/// `s` cut at every occurrence of `sep` (as `str::split` does).
pub open spec fn split_on(s: Seq<char>, sep: char) -> Seq<Seq<char>>
    decreases s.len(),
{
    match last_index(s, sep) {
        Some(i) => if 0 <= i < s.len() {
            split_on(s.subrange(0, i), sep).push(s.subrange(i + 1, s.len() as int))
        } else {
            seq![s]
        },
        None => seq![s],
    }
}

/// The views of a sequence of strings.
pub open spec fn views(v: Seq<String>) -> Seq<Seq<char>> {
    v.map_values(|s: String| s@)
}

/// The pieces of `v` between occurrences of `sep`.
pub fn split_chars(v: &Vec<char>, sep: char) -> (pieces: Vec<String>)
    ensures
        views(pieces@) == split_on(v@, sep),
{
    let mut pieces: Vec<String> = Vec::new();
    let mut start: usize = 0;
    let mut i: usize = 0;
    while i < v.len()
        invariant
            start <= i <= v@.len(),
            start == 0 ==> pieces@.len() == 0,
            start > 0 ==> v@[start - 1] == sep && views(pieces@) == split_on(
                v@.subrange(0, start - 1),
                sep,
            ),
            forall|j: int| start <= j < i ==> v@[j] != sep,
        decreases v.len() - i,
    {
        if v[i] == sep {
            let piece = string_of(v, start, i);
            let ghost prefix = v@.subrange(0, i as int);
            proof {
                if start == 0 {
                    lemma_first_index_none(prefix, sep);
                    assert(split_on(prefix, sep) == seq![prefix]);
                } else {
                    lemma_last_index_at(prefix, sep, start - 1);
                    assert(prefix.subrange(0, start - 1) =~= v@.subrange(0, start - 1));
                    assert(prefix.subrange(start as int, i as int) =~= v@.subrange(
                        start as int,
                        i as int,
                    ));
                }
            }
            pieces.push(piece);
            proof {
                assert(views(pieces@) =~= split_on(prefix, sep));
            }
            start = i + 1;
        }
        i += 1;
    }
    let last = string_of(v, start, v.len());
    proof {
        if start == 0 {
            lemma_first_index_none(v@, sep);
            assert(v@.subrange(0, v@.len() as int) =~= v@);
        } else {
            lemma_last_index_at(v@, sep, start - 1);
        }
    }
    pieces.push(last);
    proof {
        assert(views(pieces@) =~= split_on(v@, sep));
    }
    pieces
}

} // verus!

verus! {

/// `s` without its leading white space.
pub open spec fn trim_left(s: Seq<char>) -> Seq<char>
    decreases s.len(),
{
    if s.len() > 0 && is_ws(s[0]) {
        trim_left(s.drop_first())
    } else {
        s
    }
}

/// `s` without its trailing white space.
pub open spec fn trim_right(s: Seq<char>) -> Seq<char>
    decreases s.len(),
{
    if s.len() > 0 && is_ws(s.last()) {
        trim_right(s.drop_last())
    } else {
        s
    }
}

/// `s` without leading and trailing white space (`str::trim`).
pub open spec fn trim(s: Seq<char>) -> Seq<char> {
    trim_right(trim_left(s))
}

/// The bounds of `v` with its leading and trailing white space removed.
pub fn trim_bounds(v: &Vec<char>) -> (r: (usize, usize))
    ensures
        r.0 <= r.1 <= v@.len(),
        v@.subrange(r.0 as int, r.1 as int) == trim(v@),
{
    let n = v.len();
    let mut lo: usize = 0;
    assert(v@.subrange(0, n as int) =~= v@);
    while lo < n && is_whitespace(v[lo])
        invariant
            lo <= n == v@.len(),
            trim_left(v@) == trim_left(v@.subrange(lo as int, n as int)),
        decreases n - lo,
    {
        assert(v@.subrange(lo as int, n as int).drop_first() =~= v@.subrange(lo + 1, n as int));
        lo += 1;
    }
    let ghost t = v@.subrange(lo as int, n as int);
    assert(trim_left(t) == t);
    let mut hi: usize = n;
    while hi > lo && is_whitespace(v[hi - 1])
        invariant
            lo <= hi <= n == v@.len(),
            t == v@.subrange(lo as int, n as int),
            trim_right(t) == trim_right(v@.subrange(lo as int, hi as int)),
        decreases hi,
    {
        assert(v@.subrange(lo as int, hi as int).drop_last() =~= v@.subrange(
            lo as int,
            hi - 1,
        ));
        hi -= 1;
    }
    (lo, hi)
}

/// `s` with leading and trailing white space removed.
pub fn trim_str(s: &str) -> (r: String)
    ensures
        r@ == trim(s@),
{
    let v = chars_of(s);
    let (lo, hi) = trim_bounds(&v);
    string_of(&v, lo, hi)
}

/// The non-empty pieces of `s` between spaces.
pub open spec fn words(s: Seq<char>) -> Seq<Seq<char>> {
    split_on(s, ' ').filter(|w: Seq<char>| w.len() > 0)
}

/// The words of `v`: the pieces between spaces that are not empty.
pub fn words_of(v: &Vec<char>) -> (ws: Vec<String>)
    ensures
        views(ws@) == words(v@),
{
    let pieces = split_chars(v, ' ');
    let ghost all = views(pieces@);
    let ghost pred = |w: Seq<char>| w.len() > 0;
    let mut ws: Vec<String> = Vec::new();
    let mut k: usize = 0;
    while k < pieces.len()
        invariant
            k <= pieces@.len(),
            all == views(pieces@),
            pred == (|w: Seq<char>| w.len() > 0),
            views(ws@) == all.take(k as int).filter(pred),
        decreases pieces.len() - k,
    {
        proof {
            reveal_with_fuel(Seq::<_>::filter, 1);
            assert(all.take(k + 1).drop_last() =~= all.take(k as int));
        }
        if !pieces[k].as_str().is_empty() {
            ws.push(pieces[k].clone());
            assert(views(ws@) =~= all.take(k + 1).filter(pred));
        } else {
            assert(pieces@[k as int]@.len() == 0);
            assert(views(ws@) =~= all.take(k + 1).filter(pred));
        }
        k += 1;
    }
    assert(all.take(pieces@.len() as int) =~= all);
    ws
}

} // verus!

verus! {

/// The character of the decimal digit `d`.
pub open spec fn digit_char(d: nat) -> char {
    ((d + 48) as u32) as char
}

/// The decimal notation of `n`, without sign or leading zeros.
pub open spec fn decimal(n: nat) -> Seq<char>
    decreases n,
{
    if n < 10 {
        seq![digit_char(n)]
    } else {
        decimal(n / 10).push(digit_char(n % 10))
    }
}

/// Appends the decimal notation of `n` to `s`.
pub fn push_decimal(s: &mut String, n: u64)
    ensures
        final(s)@ == old(s)@ + decimal(n as nat),
    decreases n,
{
    if n >= 10 {
        push_decimal(s, n / 10);
    }
    let d: u8 = (n % 10) as u8;
    let c: char = (d + 48u8) as char;
    assert(c == digit_char((n % 10) as nat));
    string_push(s, c);
    assert(s@ =~= old(s)@ + decimal(n as nat));
}

/// The decimal notation of `n`.
pub fn decimal_string(n: u64) -> (s: String)
    ensures
        s@ == decimal(n as nat),
{
    let mut s = String::new();
    push_decimal(&mut s, n);
    assert(s@ =~= decimal(n as nat));
    s
}

/// Whether `c` is an ASCII decimal digit.
pub open spec fn is_digit(c: char) -> bool {
    '0' <= c && c <= '9'
}

/// The value of a sequence of decimal digits.
pub open spec fn digits_value(d: Seq<char>) -> nat
    decreases d.len(),
{
    if d.len() == 0 {
        0
    } else {
        digits_value(d.drop_last()) * 10 + ((d.last() as u32) - 48) as nat
    }
}

/// The digits that `str::parse::<usize>` reads: a leading `+` is skipped
/// unless it is the whole text.
pub open spec fn unsigned_digits(s: Seq<char>) -> Seq<char> {
    if s.len() > 1 && s[0] == '+' {
        s.drop_first()
    } else {
        s
    }
}

/// What `str::parse::<usize>` gives for `s`: the value of its digits when
/// there is at least one, all are decimal digits and the value fits.
pub open spec fn parse_usize_spec(s: Seq<char>) -> Option<usize> {
    let d = unsigned_digits(s);
    if d.len() > 0 && (forall|i: int| 0 <= i < d.len() ==> is_digit(d[i])) && digits_value(d)
        <= usize::MAX {
        Some(digits_value(d) as usize)
    } else {
        None
    }
}

/// A sequence of digits is worth at least as much as any of its prefixes.
pub proof fn lemma_digits_value_prefix(d: Seq<char>, k: int)
    requires
        0 <= k <= d.len(),
    ensures
        digits_value(d.take(k)) <= digits_value(d),
    decreases d.len(),
{
    if k == d.len() {
        assert(d.take(k) =~= d);
    } else {
        lemma_digits_value_prefix(d.drop_last(), k);
        assert(d.drop_last().take(k) =~= d.take(k));
    }
}

/// Parses `s` as a decimal `usize` (`str::parse::<usize>`).
pub fn parse_usize(s: &str) -> (r: Option<usize>)
    ensures
        r == parse_usize_spec(s@),
{
    let v = chars_of(s);
    let start: usize = if v.len() > 1 && v[0] == '+' {
        1
    } else {
        0
    };
    let ghost d = unsigned_digits(v@);
    assert(d =~= v@.subrange(start as int, v@.len() as int));
    if start == v.len() {
        return None;
    }
    let mut acc: usize = 0;
    let mut i: usize = start;
    while i < v.len()
        invariant
            start <= i <= v@.len(),
            v@ == s@,
            d == unsigned_digits(s@),
            d == v@.subrange(start as int, v@.len() as int),
            forall|j: int| 0 <= j < i - start ==> is_digit(d[j]),
            acc == digits_value(d.take(i - start)),
        decreases v.len() - i,
    {
        let c = v[i];
        if !('0' <= c && c <= '9') {
            assert(!is_digit(d[i - start]));
            return None;
        }
        let dv: u32 = (c as u32) - 48;
        assert(d.take(i - start + 1).drop_last() =~= d.take(i - start));
        match acc.checked_mul(10) {
            Some(m) => match m.checked_add(dv as usize) {
                Some(a) => {
                    acc = a;
                },
                None => {
                    proof {
                        lemma_digits_value_prefix(d, i - start + 1);
                    }
                    return None;
                },
            },
            None => {
                proof {
                    lemma_digits_value_prefix(d, i - start + 1);
                }
                return None;
            },
        }
        i += 1;
    }
    assert(d.take(d.len() as int) =~= d);
    Some(acc)
}

} // verus!

verus! {

/// `p` occurs in `s` at position `i`.
pub open spec fn occurs_at(s: Seq<char>, p: Seq<char>, i: int) -> bool {
    0 <= i && i + p.len() <= s.len() && s.subrange(i, i + p.len()) == p
}

/// The position of the first occurrence of `p` in `s`.
pub open spec fn find_str(s: Seq<char>, p: Seq<char>) -> Option<int>
    decreases s.len(),
{
    if s.len() < p.len() {
        None
    } else if s.take(p.len() as int) == p {
        Some(0)
    } else if s.len() == 0 {
        None
    } else {
        match find_str(s.drop_first(), p) {
            Some(i) => Some(i + 1),
            None => None,
        }
    }
}

/// `p` occurs in `s` at `i` and nowhere before.
pub proof fn lemma_find_str_at(s: Seq<char>, p: Seq<char>, i: int)
    requires
        occurs_at(s, p, i),
        forall|j: int| 0 <= j < i ==> !occurs_at(s, p, j),
    ensures
        find_str(s, p) == Some(i),
    decreases s.len(),
{
    assert(s.subrange(0, p.len() as int) =~= s.take(p.len() as int));
    if i > 0 {
        assert(!occurs_at(s, p, 0));
        let t = s.drop_first();
        assert(t.subrange(i - 1, i - 1 + p.len()) =~= s.subrange(i, i + p.len()));
        assert forall|j: int| 0 <= j < i - 1 implies !occurs_at(t, p, j) by {
            assert(t.subrange(j, j + p.len()) =~= s.subrange(j + 1, j + 1 + p.len()));
            assert(!occurs_at(s, p, j + 1));
        }
        lemma_find_str_at(t, p, i - 1);
    }
}

/// `p` does not occur in `s`.
pub proof fn lemma_find_str_none(s: Seq<char>, p: Seq<char>)
    requires
        forall|j: int| 0 <= j ==> !occurs_at(s, p, j),
    ensures
        find_str(s, p) is None,
    decreases s.len(),
{
    if s.len() >= p.len() {
        assert(s.subrange(0, p.len() as int) =~= s.take(p.len() as int));
        assert(!occurs_at(s, p, 0));
        if s.len() > 0 {
            let t = s.drop_first();
            assert forall|j: int| 0 <= j implies !occurs_at(t, p, j) by {
                if j + p.len() <= t.len() {
                    assert(t.subrange(j, j + p.len()) =~= s.subrange(j + 1, j + 1 + p.len()));
                    assert(!occurs_at(s, p, j + 1));
                }
            }
            lemma_find_str_none(t, p);
        }
    }
}

/// `s` cut at every occurrence of the non-empty pattern `p`, scanning from
/// the left (as `str::split` with a string pattern does).
pub open spec fn split_str(s: Seq<char>, p: Seq<char>) -> Seq<Seq<char>>
    decreases s.len(),
{
    if p.len() == 0 {
        seq![s]
    } else {
        match find_str(s, p) {
            Some(i) => if 0 <= i && i + p.len() <= s.len() {
                seq![s.take(i)] + split_str(s.skip(i + p.len()), p)
            } else {
                seq![s]
            },
            None => seq![s],
        }
    }
}

fn occurs_at_exec(v: &Vec<char>, p: &Vec<char>, i: usize) -> (b: bool)
    requires
        i + p@.len() <= v@.len(),
    ensures
        b == occurs_at(v@, p@, i as int),
{
    let n = v.len();
    let mut k: usize = 0;
    while k < p.len()
        invariant
            n == v@.len(),
            i + p@.len() <= v@.len(),
            k <= p@.len(),
            forall|j: int| 0 <= j < k ==> v@[i + j] == p@[j],
        decreases p.len() - k,
    {
        if v[i + k] != p[k] {
            assert(v@.subrange(i as int, i + p@.len())[k as int] != p@[k as int]);
            return false;
        }
        k += 1;
    }
    assert(v@.subrange(i as int, i + p@.len()) =~= p@);
    true
}

/// The pieces of `v` between occurrences of the non-empty pattern `p`.
pub fn split_str_chars(v: &Vec<char>, p: &Vec<char>) -> (pieces: Vec<String>)
    requires
        p@.len() > 0,
    ensures
        views(pieces@) == split_str(v@, p@),
{
    let n = v.len();
    let m = p.len();
    let mut pieces: Vec<String> = Vec::new();
    let mut start: usize = 0;
    let mut i: usize = 0;
    assert(v@.skip(0) =~= v@);
    while i <= n && m <= n - i
        invariant
            n == v@.len(),
            m == p@.len() > 0,
            start <= i,
            start <= n,
            split_str(v@, p@) == views(pieces@) + split_str(v@.skip(start as int), p@),
            forall|j: int| start <= j < i ==> !occurs_at(v@, p@, j),
        decreases n - i,
    {
        if occurs_at_exec(v, p, i) {
            let ghost t = v@.skip(start as int);
            proof {
                assert(t.subrange(i - start, i - start + m) =~= v@.subrange(i as int, i + m));
                assert forall|j: int| 0 <= j < i - start implies !occurs_at(t, p@, j) by {
                    if j + m <= t.len() {
                        assert(t.subrange(j, j + m) =~= v@.subrange(start + j, start + j + m));
                        assert(!occurs_at(v@, p@, start + j));
                    }
                }
                lemma_find_str_at(t, p@, i - start);
                assert(t.take(i - start) =~= v@.subrange(start as int, i as int));
                assert(t.skip(i - start + m) =~= v@.skip(i + m));
            }
            let piece = string_of(v, start, i);
            let ghost old_pieces = pieces@;
            pieces.push(piece);
            assert(views(pieces@) =~= views(old_pieces).push(piece@));
            assert(split_str(v@, p@) =~= views(pieces@) + split_str(v@.skip(i + m), p@));
            start = i + m;
            i = i + m;
        } else {
            i += 1;
        }
    }
    let ghost t = v@.skip(start as int);
    proof {
        assert forall|j: int| 0 <= j implies !occurs_at(t, p@, j) by {
            if j + m <= t.len() {
                assert(t.subrange(j, j + m) =~= v@.subrange(start + j, start + j + m));
                assert(!occurs_at(v@, p@, start + j));
            }
        }
        lemma_find_str_none(t, p@);
        assert(t =~= v@.subrange(start as int, n as int));
    }
    let last = string_of(v, start, n);
    let ghost old_pieces = pieces@;
    pieces.push(last);
    assert(views(pieces@) =~= views(old_pieces).push(last@));
    assert(split_str(v@, p@) =~= views(pieces@));
    pieces
}

} // verus!

verus! {

/// The pieces `s` joined, with `sep` between each two.
pub open spec fn join(pieces: Seq<Seq<char>>, sep: char) -> Seq<char>
    decreases pieces.len(),
{
    if pieces.len() <= 1 {
        if pieces.len() == 0 {
            Seq::empty()
        } else {
            pieces[0]
        }
    } else {
        join(pieces.drop_last(), sep).push(sep) + pieces.last()
    }
}

/// Splitting at a character and joining the pieces back with it gives the
/// text back: splitting loses nothing but the separators.
pub proof fn lemma_split_join(s: Seq<char>, sep: char)
    ensures
        join(split_on(s, sep), sep) == s,
        split_on(s, sep).len() >= 1,
    decreases s.len(),
{
    lemma_index_props(s, sep);
    match last_index(s, sep) {
        Some(i) => {
            let pre = s.subrange(0, i);
            lemma_split_join(pre, sep);
            let pieces = split_on(s, sep);
            assert(pieces.drop_last() =~= split_on(pre, sep));
            assert(pre.push(sep) + s.subrange(i + 1, s.len() as int) =~= s);
        },
        None => {},
    }
}

/// The decimal notation of a number is made of digits, does not begin with
/// `+`, and is worth the number.
proof fn lemma_decimal_digits(n: nat)
    ensures
        decimal(n).len() > 0,
        forall|i: int| 0 <= i < decimal(n).len() ==> is_digit(#[trigger] decimal(n)[i]),
        digits_value(decimal(n)) == n,
    decreases n,
{
    if n >= 10 {
        lemma_decimal_digits(n / 10);
        let d = decimal(n);
        assert(d.drop_last() =~= decimal(n / 10));
        assert(forall|i: int| 0 <= i < d.len() - 1 ==> d[i] == decimal(n / 10)[i]);
        assert(d.last() == digit_char(n % 10));
        assert((digit_char(n % 10) as u32) == n % 10 + 48);
        assert(n == (n / 10) * 10 + n % 10);
    } else {
        assert((digit_char(n) as u32) == n + 48);
        assert(decimal(n).drop_last() =~= Seq::<char>::empty());
        assert(digits_value(Seq::<char>::empty()) == 0);
    }
}

/// Reading back a number's decimal notation gives the number: formatting
/// and parsing agree on every `usize`.
pub proof fn lemma_parse_decimal(n: usize)
    ensures
        parse_usize_spec(decimal(n as nat)) == Some(n),
{
    lemma_decimal_digits(n as nat);
    let d = decimal(n as nat);
    assert(is_digit(d[0]));
    assert(unsigned_digits(d) == d);
}

/// Trimming twice trims no more than trimming once.
pub proof fn lemma_trim_idempotent(s: Seq<char>)
    ensures
        trim(trim(s)) == trim(s),
{
    lemma_trim_ends(s);
    let t = trim(s);
    if t.len() > 0 {
        assert(trim_left(t) == t);
        assert(trim_right(t) == t);
    } else {
        assert(trim_left(t) == t);
    }
}

/// Trimmed text neither begins nor ends with white space.
pub proof fn lemma_trim_ends(s: Seq<char>)
    ensures
        trim(s).len() > 0 ==> !is_ws(trim(s)[0]) && !is_ws(trim(s).last()),
{
    lemma_trim_left_start(s);
    lemma_trim_right_keeps_start(trim_left(s));
}

proof fn lemma_trim_left_start(s: Seq<char>)
    ensures
        trim_left(s).len() > 0 ==> !is_ws(trim_left(s)[0]),
    decreases s.len(),
{
    if s.len() > 0 && is_ws(s[0]) {
        lemma_trim_left_start(s.drop_first());
    }
}

proof fn lemma_trim_right_keeps_start(s: Seq<char>)
    ensures
        trim_right(s).len() > 0 ==> !is_ws(trim_right(s).last()) && trim_right(s)[0] == s[0],
    decreases s.len(),
{
    if s.len() > 0 && is_ws(s.last()) {
        lemma_trim_right_keeps_start(s.drop_last());
    }
}

} // verus!

verus! {

/// Finds the first occurrence of the pattern `p` in `v`.
pub fn find_pattern(v: &Vec<char>, p: &Vec<char>) -> (r: Option<usize>)
    ensures
        match r {
            Some(i) => find_str(v@, p@) == Some(i as int) && occurs_at(v@, p@, i as int),
            None => find_str(v@, p@) is None,
        },
{
    let n = v.len();
    let m = p.len();
    if m == 0 {
        assert(v@.subrange(0, 0) =~= p@);
        proof {
            lemma_find_str_at(v@, p@, 0);
        }
        return Some(0);
    }
    let mut i: usize = 0;
    while i <= n && m <= n - i
        invariant
            n == v@.len(),
            m == p@.len() > 0,
            i <= n,
            forall|j: int| 0 <= j < i ==> !occurs_at(v@, p@, j),
        decreases n - i,
    {
        if occurs_at_exec(v, p, i) {
            proof {
                lemma_find_str_at(v@, p@, i as int);
            }
            return Some(i);
        }
        i += 1;
    }
    proof {
        lemma_find_str_none(v@, p@);
    }
    None
}

} // verus!
