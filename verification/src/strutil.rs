//! Verified building blocks for the string work the library does:
//! substring search, splitting and joining, decimal parsing and
//! rendering, padding, and placeholder replacement.

use vstd::prelude::*;
use vstd::string::*;

verus! {

/// Index of the first occurrence of `p` in `s`, or -1 when `p` occurs nowhere.
pub open spec fn first_occur(s: Seq<char>, p: Seq<char>) -> int
    decreases s.len(),
{
    if p.len() == 0 {
        0
    } else if p.len() > s.len() {
        -1
    } else if s.subrange(0, p.len() as int) == p {
        0
    } else if first_occur(s.drop_first(), p) < 0 {
        -1
    } else {
        1 + first_occur(s.drop_first(), p)
    }
}

/// `p` occurs in `s` starting at index `i`.
pub open spec fn occurs_at(s: Seq<char>, p: Seq<char>, i: int) -> bool {
    0 <= i && i + p.len() <= s.len() && s.subrange(i, i + p.len() as int) == p
}

/// `p` occurs somewhere in `s`.
pub open spec fn contains_seq(s: Seq<char>, p: Seq<char>) -> bool {
    first_occur(s, p) >= 0
}

/// `first_occur` returns the least index at which `p` occurs, or -1 when
/// there is none.
pub proof fn lemma_first_occur(s: Seq<char>, p: Seq<char>)
    ensures
        first_occur(s, p) >= -1,
        first_occur(s, p) >= 0 ==> occurs_at(s, p, first_occur(s, p)),
        first_occur(s, p) >= 0 ==> forall|j: int| 0 <= j < first_occur(s, p) ==> !occurs_at(s, p, j),
        first_occur(s, p) == -1 ==> forall|j: int| !occurs_at(s, p, j),
    decreases s.len(),
{
    if p.len() == 0 {
        assert(s.subrange(0, 0) =~= p);
    } else if p.len() > s.len() {
        assert(forall|j: int| !occurs_at(s, p, j));
    } else if s.subrange(0, p.len() as int) == p {
    } else {
        lemma_first_occur(s.drop_first(), p);
        assert forall|j: int| occurs_at(s, p, j) implies j >= 1 && occurs_at(s.drop_first(), p, j - 1) by {
            if occurs_at(s, p, j) {
                if j == 0 {
                    assert(s.subrange(0, p.len() as int) == p);
                } else {
                    assert(s.drop_first().subrange(j - 1, j - 1 + p.len() as int) =~= s.subrange(
                        j,
                        j + p.len() as int,
                    ));
                }
            }
        }
        assert forall|j: int| occurs_at(s.drop_first(), p, j) implies occurs_at(s, p, j + 1) by {
            if occurs_at(s.drop_first(), p, j) {
                assert(s.subrange(j + 1, j + 1 + p.len() as int) =~= s.drop_first().subrange(
                    j,
                    j + p.len() as int,
                ));
            }
        }
    }
}

/// Index of the first occurrence of `needle` in `hay`, if any.
pub fn find_sub(hay: &str, needle: &str) -> (r: Option<usize>)
    ensures
        r is Some ==> r->0 == first_occur(hay@, needle@) && occurs_at(hay@, needle@, r->0 as int),
        r is None ==> first_occur(hay@, needle@) == -1,
{
    proof {
        lemma_first_occur(hay@, needle@);
    }
    let n: usize = hay.unicode_len();
    let m: usize = needle.unicode_len();
    if m > n {
        return None;
    }
    let mut i: usize = 0;
    while i <= n - m
        invariant
            m <= n,
            i <= n - m + 1,
            hay@.len() == n,
            needle@.len() == m,
            forall|j: int| 0 <= j < i ==> !occurs_at(hay@, needle@, j),
        decreases n - m + 1 - i,
    {
        let mut j: usize = 0;
        let mut matched: bool = true;
        while j < m && matched
            invariant
                j <= m,
                i + m <= n,
                hay@.len() == n,
                needle@.len() == m,
                matched ==> forall|k: int| 0 <= k < j ==> hay@[i + k] == needle@[k],
                !matched ==> exists|k: int| 0 <= k < m && hay@[i + k] != needle@[k],
            decreases m - j + if matched { 1int } else { 0int },
        {
            if hay.get_char(i + j) != needle.get_char(j) {
                matched = false;
            } else {
                j += 1;
            }
        }
        if matched {
            proof {
                assert(hay@.subrange(i as int, i + needle@.len() as int) =~= needle@);
                lemma_first_occur(hay@, needle@);
                assert(occurs_at(hay@, needle@, i as int));
                assert(first_occur(hay@, needle@) >= 0);
                let f = first_occur(hay@, needle@);
                assert(!(f < i)) by {
                    if f < i {
                        assert(occurs_at(hay@, needle@, f));
                    }
                }
                assert(!(f > i)) by {
                    if f > i {
                        assert(!occurs_at(hay@, needle@, i as int));
                    }
                }
            }
            return Some(i);
        }
        proof {
            let k = choose|k: int| 0 <= k < m && hay@[i + k] != needle@[k];
            assert(hay@.subrange(i as int, i + needle@.len() as int)[k] == hay@[i + k]);
            assert(!occurs_at(hay@, needle@, i as int));
        }
        i += 1;
    }
    proof {
        assert forall|j: int| !occurs_at(hay@, needle@, j) by {
            lemma_first_occur(hay@, needle@);
        }
    }
    None
}

/// Whether `needle` occurs anywhere in `hay`.
pub fn contains_sub(hay: &str, needle: &str) -> (r: bool)
    ensures
        r == contains_seq(hay@, needle@),
{
    find_sub(hay, needle).is_some()
}

/// Split `s` at the first occurrence of `sep`: the part before and the part
/// after the separator, or nothing when `sep` does not occur.
pub fn split_once_str<'a>(s: &'a str, sep: &str) -> (r: Option<(&'a str, &'a str)>)
    ensures
        contains_seq(s@, sep@) ==> r is Some,
        r matches Some(p) ==> {
            let i = first_occur(s@, sep@);
            &&& contains_seq(s@, sep@)
            &&& 0 <= i && i + sep@.len() <= s@.len()
            &&& p.0@ == s@.subrange(0, i)
            &&& p.1@ == s@.subrange(i + sep@.len(), s@.len() as int)
        },
        !contains_seq(s@, sep@) ==> r is None,
{
    let n: usize = s.unicode_len();
    let m: usize = sep.unicode_len();
    match find_sub(s, sep) {
        None => None,
        Some(i) => {
            let a = s.substring_char(0, i);
            let b = s.substring_char(i + m, n);
            Some((a, b))
        },
    }
}

/// The segments of `s` between occurrences of `sep`, in order. A string
/// without the separator is a single segment.
pub open spec fn split_seq(s: Seq<char>, sep: Seq<char>) -> Seq<Seq<char>>
    decreases s.len(),
{
    let i = first_occur(s, sep);
    if sep.len() == 0 || i < 0 || i + sep.len() > s.len() {
        seq![s]
    } else {
        seq![s.subrange(0, i)] + split_seq(s.subrange(i + sep.len(), s.len() as int), sep)
    }
}

/// Split `s` on every occurrence of `sep`.
pub fn split_all(s: &str, sep: &str) -> (r: Vec<String>)
    requires
        sep@.len() > 0,
    ensures
        r.deep_view() == split_seq(s@, sep@),
        r.len() > 0,
{
    let mut out: Vec<String> = Vec::new();
    let mut rest: &str = s;
    loop
        invariant
            sep@.len() > 0,
            split_seq(s@, sep@) == out.deep_view() + split_seq(rest@, sep@),
        decreases rest@.len(),
    {
        proof {
            lemma_first_occur(rest@, sep@);
        }
        match split_once_str(rest, sep) {
            Some((a, b)) => {
                let ghost prev = out.deep_view();
                out.push(String::from_str(a));
                proof {
                    assert(out.deep_view() =~= prev.push(a@));
                    assert(split_seq(rest@, sep@) == seq![a@] + split_seq(b@, sep@));
                    assert(prev.push(a@) =~= prev + seq![a@]);
                    assert((prev + seq![a@]) + split_seq(b@, sep@) =~= prev + (seq![a@]
                        + split_seq(b@, sep@)));
                }
                rest = b;
            },
            None => {
                let ghost prev = out.deep_view();
                out.push(String::from_str(rest));
                proof {
                    assert(split_seq(rest@, sep@) == seq![rest@]);
                    assert(out.deep_view() =~= prev + seq![rest@]);
                }
                return out;
            },
        }
    }
}

/// The segments joined back together with `sep` between neighbours.
pub open spec fn join_seq(parts: Seq<Seq<char>>, sep: Seq<char>) -> Seq<char>
    decreases parts.len(),
{
    if parts.len() == 0 {
        Seq::empty()
    } else if parts.len() == 1 {
        parts[0]
    } else {
        parts[0] + sep + join_seq(parts.drop_first(), sep)
    }
}

/// Appending one more segment appends a separator and the segment.
pub proof fn lemma_join_snoc(parts: Seq<Seq<char>>, sep: Seq<char>, x: Seq<char>)
    ensures
        join_seq(parts.push(x), sep) == if parts.len() == 0 {
            x
        } else {
            join_seq(parts, sep) + sep + x
        },
    decreases parts.len(),
{
    if parts.len() == 0 {
        assert(parts.push(x).len() == 1);
        assert(parts.push(x)[0] == x);
    } else if parts.len() == 1 {
        assert(parts.push(x)[0] == parts[0]);
        assert(parts.push(x).drop_first() =~= seq![x]);
        assert(join_seq(seq![x], sep) == x);
    } else {
        assert(parts.push(x).drop_first() =~= parts.drop_first().push(x));
        lemma_join_snoc(parts.drop_first(), sep, x);
        assert(parts.push(x)[0] == parts[0]);
        assert((parts[0] + sep + (join_seq(parts.drop_first(), sep) + sep + x)) =~= (parts[0] + sep
            + join_seq(parts.drop_first(), sep)) + sep + x);
    }
}

/// Join the segments with `sep` between neighbours.
pub fn join_with(parts: &Vec<String>, sep: &str) -> (r: String)
    ensures
        r@ == join_seq(parts.deep_view(), sep@),
{
    let mut out = String::new();
    let mut i: usize = 0;
    while i < parts.len()
        invariant
            i <= parts.len(),
            out@ == join_seq(parts.deep_view().take(i as int), sep@),
        decreases parts.len() - i,
    {
        if i > 0 {
            out.append(sep);
        }
        out.append(parts[i].as_str());
        proof {
            let pv = parts.deep_view();
            assert(pv.take(i + 1) =~= pv.take(i as int).push(pv[i as int]));
            lemma_join_snoc(pv.take(i as int), sep@, pv[i as int]);
        }
        i += 1;
    }
    proof {
        assert(parts.deep_view().take(parts.len() as int) =~= parts.deep_view());
    }
    out
}

/// A decimal digit.
pub open spec fn is_digit_char(c: char) -> bool {
    48 <= c as u32 <= 57
}

/// The numeric value of a decimal digit.
pub open spec fn digit_val(c: char) -> int {
    c as u32 - 48
}

pub open spec fn all_digits(s: Seq<char>) -> bool {
    forall|i: int| 0 <= i < s.len() ==> is_digit_char(s[i])
}

/// The number written in decimal as `s`.
pub open spec fn dec_val(s: Seq<char>) -> int
    decreases s.len(),
{
    if s.len() == 0 {
        0
    } else {
        dec_val(s.drop_last()) * 10 + digit_val(s.last())
    }
}

pub proof fn lemma_dec_val_nonneg(s: Seq<char>)
    requires
        all_digits(s),
    ensures
        dec_val(s) >= 0,
    decreases s.len(),
{
    if s.len() > 0 {
        assert(all_digits(s.drop_last()));
        lemma_dec_val_nonneg(s.drop_last());
    }
}

/// A prefix of a digit string never exceeds the whole string's value.
pub proof fn lemma_dec_val_prefix(s: Seq<char>, i: int)
    requires
        all_digits(s),
        0 <= i <= s.len(),
    ensures
        dec_val(s.take(i)) <= dec_val(s),
    decreases s.len() - i,
{
    if i == s.len() {
        assert(s.take(i) =~= s);
    } else {
        assert(s.take(i + 1).drop_last() =~= s.take(i));
        assert(all_digits(s.take(i)));
        lemma_dec_val_nonneg(s.take(i));
        assert(dec_val(s.take(i + 1)) == dec_val(s.take(i)) * 10 + digit_val(s[i]));
        lemma_dec_val_prefix(s, i + 1);
    }
}

/// Parse a decimal count that fits in a byte. Yields a value exactly when
/// the text is one or more digits naming a number at most 255.
pub fn parse_u8_str(s: &str) -> (r: Option<u8>)
    ensures
        r is Some <==> (s@.len() > 0 && all_digits(s@) && dec_val(s@) <= 255),
        r matches Some(v) ==> v == dec_val(s@),
{
    let n: usize = s.unicode_len();
    if n == 0 {
        return None;
    }
    let mut acc: u16 = 0;
    let mut i: usize = 0;
    while i < n
        invariant
            i <= n,
            s@.len() == n,
            all_digits(s@.take(i as int)),
            acc == dec_val(s@.take(i as int)),
            acc <= 255,
        decreases n - i,
    {
        let c = s.get_char(i);
        let code: u32 = c as u32;
        if code < 48 || code > 57 {
            assert(!is_digit_char(s@[i as int]));
            return None;
        }
        let d: u16 = (code - 48) as u16;
        proof {
            assert(s@.take(i + 1).drop_last() =~= s@.take(i as int));
            assert(s@.take(i + 1).last() == s@[i as int]);
        }
        let next: u16 = acc * 10 + d;
        if next > 255 {
            proof {
                assert(all_digits(s@.take(i + 1)));
                assert(dec_val(s@.take(i + 1)) == next);
                if all_digits(s@) {
                    lemma_dec_val_prefix(s@, i + 1);
                }
            }
            return None;
        }
        acc = next;
        i += 1;
    }
    proof {
        assert(s@.take(n as int) =~= s@);
    }
    Some(acc as u8)
}

/// The digit naming `d`.
pub open spec fn digit_char(d: int) -> char {
    if d == 0 {
        '0'
    } else if d == 1 {
        '1'
    } else if d == 2 {
        '2'
    } else if d == 3 {
        '3'
    } else if d == 4 {
        '4'
    } else if d == 5 {
        '5'
    } else if d == 6 {
        '6'
    } else if d == 7 {
        '7'
    } else if d == 8 {
        '8'
    } else {
        '9'
    }
}

/// The decimal rendering of `n`, most significant digit first.
pub open spec fn dec_rep(n: int) -> Seq<char>
    decreases n,
{
    if n < 10 {
        seq![digit_char(n)]
    } else {
        dec_rep(n / 10).push(digit_char(n % 10))
    }
}

fn digit_str(d: u8) -> (r: &'static str)
    requires
        d < 10,
    ensures
        r@ =~= seq![digit_char(d as int)],
{
    proof {
        reveal_strlit("0");
        reveal_strlit("1");
        reveal_strlit("2");
        reveal_strlit("3");
        reveal_strlit("4");
        reveal_strlit("5");
        reveal_strlit("6");
        reveal_strlit("7");
        reveal_strlit("8");
        reveal_strlit("9");
    }
    match d {
        0 => "0",
        1 => "1",
        2 => "2",
        3 => "3",
        4 => "4",
        5 => "5",
        6 => "6",
        7 => "7",
        8 => "8",
        _ => "9",
    }
}

/// Render a byte count in decimal.
pub fn u8_to_dec(n: u8) -> (r: String)
    ensures
        r@ == dec_rep(n as int),
{
    if n < 10 {
        String::from_str(digit_str(n))
    } else if n < 100 {
        let mut out = String::from_str(digit_str(n / 10));
        out.append(digit_str(n % 10));
        proof {
            assert(dec_rep(n as int) == dec_rep(n as int / 10).push(digit_char(n as int % 10)));
            assert(out@ =~= dec_rep(n as int));
        }
        out
    } else {
        let mut out = String::from_str(digit_str(n / 100));
        out.append(digit_str((n / 10) % 10));
        out.append(digit_str(n % 10));
        proof {
            assert(dec_rep(n as int) == dec_rep(n as int / 10).push(digit_char(n as int % 10)));
            assert(dec_rep(n as int / 10) == dec_rep(n as int / 100).push(
                digit_char((n as int / 10) % 10),
            ));
            assert(n as int / 10 / 10 == n as int / 100);
            assert(out@ =~= dec_rep(n as int));
        }
        out
    }
}

/// `n` spaces, or none when `n` is not positive.
pub open spec fn spaces(n: int) -> Seq<char> {
    if n <= 0 {
        Seq::empty()
    } else {
        Seq::new(n as nat, |i: int| ' ')
    }
}

/// `s` padded on the right with spaces to at least `width` characters.
pub fn pad_to(s: &str, width: usize) -> (r: String)
    ensures
        r@ == s@ + spaces(width - s@.len()),
{
    proof {
        reveal_strlit(" ");
    }
    let mut out = String::from_str(s);
    let mut cnt: usize = s.unicode_len();
    proof {
        assert(out@ =~= s@ + spaces(cnt - s@.len()));
    }
    while cnt < width
        invariant
            cnt >= s@.len(),
            cnt == s@.len() || cnt <= width,
            out@ == s@ + spaces(cnt - s@.len()),
        decreases width - cnt,
    {
        out.append(" ");
        proof {
            reveal_strlit(" ");
            assert(" "@ =~= seq![' ']);
            assert(s@ + spaces(cnt + 1 - s@.len()) =~= (s@ + spaces(cnt - s@.len())) + " "@);
        }
        cnt += 1;
    }
    proof {
        assert(out@ =~= s@ + spaces(width - s@.len()));
    }
    out
}

/// `s` with every occurrence of `pat` replaced by `rep`, scanning from the
/// left without overlap.
pub open spec fn replace_seq(s: Seq<char>, pat: Seq<char>, rep: Seq<char>) -> Seq<char>
    decreases s.len(),
{
    let i = first_occur(s, pat);
    if pat.len() == 0 || i < 0 || i + pat.len() > s.len() {
        s
    } else {
        s.subrange(0, i) + rep + replace_seq(s.subrange(i + pat.len(), s.len() as int), pat, rep)
    }
}

/// Replace every occurrence of `pat` in `s` by `rep`.
pub fn replace_all(s: &str, pat: &str, rep: &str) -> (r: String)
    requires
        pat@.len() > 0,
    ensures
        r@ == replace_seq(s@, pat@, rep@),
{
    let mut out = String::new();
    let mut rest: &str = s;
    loop
        invariant
            pat@.len() > 0,
            replace_seq(s@, pat@, rep@) == out@ + replace_seq(rest@, pat@, rep@),
        decreases rest@.len(),
    {
        proof {
            lemma_first_occur(rest@, pat@);
        }
        match split_once_str(rest, pat) {
            Some((a, b)) => {
                let ghost prev = out@;
                out.append(a);
                out.append(rep);
                proof {
                    assert(replace_seq(rest@, pat@, rep@) == a@ + rep@ + replace_seq(
                        b@,
                        pat@,
                        rep@,
                    ));
                    assert(prev + (a@ + rep@ + replace_seq(b@, pat@, rep@)) =~= ((prev + a@) + rep@)
                        + replace_seq(b@, pat@, rep@));
                }
                rest = b;
            },
            None => {
                out.append(rest);
                proof {
                    assert(replace_seq(rest@, pat@, rep@) == rest@);
                }
                return out;
            },
        }
    }
}

/// Case-sensitive lexicographic order on character sequences, by code point.
pub open spec fn lex_le(a: Seq<char>, b: Seq<char>) -> bool
    decreases a.len(),
{
    if a.len() == 0 {
        true
    } else if b.len() == 0 {
        false
    } else if (a[0] as u32) < (b[0] as u32) {
        true
    } else if (a[0] as u32) > (b[0] as u32) {
        false
    } else {
        lex_le(a.drop_first(), b.drop_first())
    }
}

/// Any two sequences are comparable.
pub proof fn lemma_lex_le_total(a: Seq<char>, b: Seq<char>)
    ensures
        lex_le(a, b) || lex_le(b, a),
    decreases a.len(),
{
    if a.len() > 0 && b.len() > 0 && (a[0] as u32) == (b[0] as u32) {
        lemma_lex_le_total(a.drop_first(), b.drop_first());
    }
}

pub proof fn lemma_lex_le_trans(a: Seq<char>, b: Seq<char>, c: Seq<char>)
    requires
        lex_le(a, b),
        lex_le(b, c),
    ensures
        lex_le(a, c),
    decreases a.len(),
{
    if a.len() > 0 && b.len() > 0 && c.len() > 0 && (a[0] as u32) == (b[0] as u32) && (b[0] as u32)
        == (c[0] as u32) {
        lemma_lex_le_trans(a.drop_first(), b.drop_first(), c.drop_first());
    }
}

/// Compare two strings in the order of `lex_le`.
pub fn lex_le_str(a: &str, b: &str) -> (r: bool)
    ensures
        r == lex_le(a@, b@),
{
    let an: usize = a.unicode_len();
    let bn: usize = b.unicode_len();
    let mut i: usize = 0;
    proof {
        assert(a@.skip(0) =~= a@);
        assert(b@.skip(0) =~= b@);
    }
    while i < an && i < bn
        invariant
            i <= an,
            i <= bn,
            a@.len() == an,
            b@.len() == bn,
            lex_le(a@, b@) == lex_le(a@.skip(i as int), b@.skip(i as int)),
        decreases an - i,
    {
        let ca: u32 = a.get_char(i) as u32;
        let cb: u32 = b.get_char(i) as u32;
        if ca < cb {
            assert(lex_le(a@.skip(i as int), b@.skip(i as int)));
            return true;
        }
        if ca > cb {
            assert(!lex_le(a@.skip(i as int), b@.skip(i as int)));
            return false;
        }
        proof {
            assert(a@.skip(i as int).drop_first() =~= a@.skip(i + 1));
            assert(b@.skip(i as int).drop_first() =~= b@.skip(i + 1));
        }
        i += 1;
    }
    proof {
        if i >= an {
            assert(a@.skip(i as int).len() == 0);
        } else {
            assert(b@.skip(i as int).len() == 0);
            assert(a@.skip(i as int).len() > 0);
        }
    }
    i >= an
}

/// Whether two strings hold the same characters.
pub fn str_eq_str(a: &str, b: &str) -> (r: bool)
    ensures
        r == (a@ == b@),
{
    let an: usize = a.unicode_len();
    let bn: usize = b.unicode_len();
    if an != bn {
        return false;
    }
    let mut i: usize = 0;
    while i < an
        invariant
            i <= an,
            a@.len() == an,
            b@.len() == bn,
            an == bn,
            forall|k: int| 0 <= k < i ==> a@[k] == b@[k],
        decreases an - i,
    {
        if a.get_char(i) != b.get_char(i) {
            return false;
        }
        i += 1;
    }
    proof {
        assert(a@ =~= b@);
    }
    true
}

/// What `str::to_lowercase` yields for a given text.
pub uninterp spec fn lower_of(s: Seq<char>) -> Seq<char>;

/// Relies on str::to_lowercase: the lowercased text is a function of the
/// characters alone.
#[verifier::external_body]
pub(crate) fn lowercase(s: &str) -> (r: String)
    ensures
        r@ == lower_of(s@),
{
    s.to_lowercase()
}

} // verus!
