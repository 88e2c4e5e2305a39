//! Character sequences, decimal numbers and column splitting.

use vstd::prelude::*;

verus! {

/// Relies on `str::chars` collected into a `Vec`: the characters of `s`, in order.
#[verifier::external_body]
pub(crate) fn chars_of(s: &str) -> (r: Vec<char>)
    ensures
        r@ == s@,
{
    s.chars().collect()
}

/// Relies on collecting `char`s into a `String`: the string holds exactly `cs`.
#[verifier::external_body]
pub(crate) fn string_of(cs: &Vec<char>) -> (r: String)
    ensures
        r@ == cs@,
{
    cs.iter().collect()
}

pub open spec fn is_digit(c: char) -> bool {
    '0' <= c && c <= '9'
}

pub open spec fn all_digits(s: Seq<char>) -> bool {
    forall|i: int| 0 <= i < s.len() ==> is_digit(#[trigger] s[i])
}

/// Value of a run of decimal digits, most significant first.
pub open spec fn digits_value(s: Seq<char>) -> nat
    decreases s.len(),
{
    if s.len() == 0 {
        0
    } else {
        digits_value(s.drop_last()) * 10 + ((s.last() as u32 - 48) as nat)
    }
}

/// The unsigned 64-bit number that `s` spells: an optional `+`, then one or
/// more decimal digits whose value fits.
pub open spec fn decimal_u64(s: Seq<char>) -> Option<u64> {
    let d = if s.len() > 0 && s[0] == '+' {
        s.drop_first()
    } else {
        s
    };
    if d.len() > 0 && all_digits(d) && digits_value(d) <= u64::MAX {
        Some(digits_value(d) as u64)
    } else {
        None
    }
}

pub open spec fn digit_char(d: nat) -> char {
    ((d + 48) as u8) as char
}

/// Shortest decimal spelling of `n`.
pub open spec fn decimal_of(n: nat) -> Seq<char>
    decreases n,
{
    if n < 10 {
        seq![digit_char(n)]
    } else {
        decimal_of(n / 10).push(digit_char(n % 10))
    }
}

/// Appends the decimal spelling of `n` to `out`.
pub fn push_decimal(n: u64, out: &mut Vec<char>)
    ensures
        final(out)@ == old(out)@ + decimal_of(n as nat),
    decreases n,
{
    if n >= 10 {
        push_decimal(n / 10, out);
    }
    let d: u8 = (n % 10) as u8;
    let c: char = (d + 48u8) as char;
    out.push(c);
}

proof fn lemma_prefix_value_le(s: Seq<char>, k: int)
    requires
        0 <= k <= s.len(),
    ensures
        digits_value(s.subrange(0, k)) <= digits_value(s),
    decreases s.len(),
{
    if k < s.len() {
        assert(s.drop_last().subrange(0, k) =~= s.subrange(0, k));
        lemma_prefix_value_le(s.drop_last(), k);
    } else {
        assert(s.subrange(0, k) =~= s);
    }
}

/// Reads an unsigned 64-bit decimal number, as `str::parse::<u64>` does.
pub fn parse_decimal(cs: &Vec<char>) -> (r: Option<u64>)
    ensures
        r == decimal_u64(cs@),
{
    let start: usize = if cs.len() > 0 && cs[0] == '+' { 1 } else { 0 };
    let ghost d = if cs@.len() > 0 && cs@[0] == '+' { cs@.drop_first() } else { cs@ };
    assert(d =~= cs@.subrange(start as int, cs@.len() as int));
    if start == cs.len() {
        return None;
    }
    let mut acc: u64 = 0;
    let mut i: usize = start;
    while i < cs.len()
        invariant
            start <= i <= cs.len(),
            d =~= cs@.subrange(start as int, cs@.len() as int),
            d == (if cs@.len() > 0 && cs@[0] == '+' { cs@.drop_first() } else { cs@ }),
            all_digits(cs@.subrange(start as int, i as int)),
            acc as nat == digits_value(cs@.subrange(start as int, i as int)),
        decreases cs.len() - i,
    {
        let c = cs[i];
        let ghost pre = cs@.subrange(start as int, i + 1);
        assert(pre.drop_last() =~= cs@.subrange(start as int, i as int));
        if !('0' <= c && c <= '9') {
            assert(d[i - start] == c);
            assert(!is_digit(d[i - start]));
            assert(!all_digits(d));
            assert(decimal_u64(cs@) is None);
            return None;
        }
        let dv: u64 = (c as u32 - 48) as u64;
        if acc > (u64::MAX - dv) / 10 {
            proof {
                assert(pre.last() == c);
                assert(acc * 10 + dv > u64::MAX) by (nonlinear_arith)
                    requires
                        acc > (u64::MAX - dv) / 10,
                        dv <= 9,
                ;
                if all_digits(d) {
                    assert(pre =~= d.subrange(0, i + 1 - start));
                    lemma_prefix_value_le(d, i + 1 - start);
                }
                assert(decimal_u64(cs@) is None);
            }
            return None;
        }
        acc = acc * 10 + dv;
        i = i + 1;
        assert(all_digits(pre)) by {
            assert forall|j: int| 0 <= j < pre.len() implies is_digit(#[trigger] pre[j]) by {
                if j < pre.len() - 1 {
                    assert(pre[j] == cs@.subrange(start as int, i - 1)[j]);
                }
            }
        }
    }
    Some(acc)
}

proof fn lemma_digit_char(d: nat)
    requires
        d < 10,
    ensures
        is_digit(digit_char(d)),
        digit_char(d) as u32 - 48 == d,
{
    assert(d == 0 || d == 1 || d == 2 || d == 3 || d == 4 || d == 5 || d == 6 || d == 7 || d == 8
        || d == 9);
}

proof fn lemma_decimal_of(n: nat)
    ensures
        decimal_of(n).len() > 0,
        all_digits(decimal_of(n)),
        digits_value(decimal_of(n)) == n,
    decreases n,
{
    if n < 10 {
        lemma_digit_char(n);
        assert(decimal_of(n).drop_last() =~= Seq::<char>::empty());
        assert(digits_value(Seq::<char>::empty()) == 0);
        assert(digits_value(decimal_of(n)) == digits_value(decimal_of(n).drop_last()) * 10 + (
        digit_char(n) as u32 - 48) as nat);
    } else {
        lemma_decimal_of(n / 10);
        lemma_digit_char(n % 10);
        let s = decimal_of(n);
        assert(s.drop_last() =~= decimal_of(n / 10));
        assert(s.last() == digit_char(n % 10));
        assert(n == (n / 10) * 10 + n % 10);
        assert(digits_value(s) == digits_value(s.drop_last()) * 10 + (digit_char(n % 10) as u32
            - 48) as nat);
        assert forall|i: int| 0 <= i < s.len() implies is_digit(#[trigger] s[i]) by {
            if i < s.len() - 1 {
                assert(s[i] == decimal_of(n / 10)[i]);
            }
        }
    }
}

/// Reading back the decimal spelling of a number gives that number.
pub proof fn lemma_decimal_round_trip(n: u64)
    ensures
        decimal_u64(decimal_of(n as nat)) == Some(n),
        all_digits(decimal_of(n as nat)),
{
    lemma_decimal_of(n as nat);
}

/// Splits `s` at `sep` into at most `n` pieces, as `str::splitn` does for
/// `n >= 1`: the last piece keeps the rest of the text, separators included.
pub open spec fn splitn(s: Seq<char>, n: nat, sep: char) -> Seq<Seq<char>>
    decreases s.len(),
{
    if s.len() == 0 {
        seq![Seq::<char>::empty()]
    } else if n > 1 && s[0] == sep {
        seq![Seq::<char>::empty()] + splitn(s.drop_first(), (n - 1) as nat, sep)
    } else {
        let rest = splitn(s.drop_first(), n, sep);
        rest.update(0, seq![s[0]] + rest[0])
    }
}

pub open spec fn views(vs: Seq<Vec<char>>) -> Seq<Seq<char>> {
    vs.map_values(|v: Vec<char>| v@)
}

/// The pieces of `cs[i..]` split at `sep`, at most `n` of them.
pub fn split_from(cs: &Vec<char>, i: usize, n: usize, sep: char) -> (r: Vec<Vec<char>>)
    requires
        i <= cs.len(),
    ensures
        r@.len() >= 1,
        views(r@) == splitn(cs@.subrange(i as int, cs@.len() as int), n as nat, sep),
    decreases cs.len() - i,
{
    let ghost s = cs@.subrange(i as int, cs@.len() as int);
    if i == cs.len() {
        let mut r: Vec<Vec<char>> = Vec::new();
        r.push(Vec::new());
        assert(s =~= Seq::<char>::empty());
        assert(views(r@) =~= splitn(s, n as nat, sep));
        return r;
    }
    assert(s.drop_first() =~= cs@.subrange(i + 1, cs@.len() as int));
    if n > 1 && cs[i] == sep {
        let mut rest = split_from(cs, i + 1, n - 1, sep);
        rest.insert(0, Vec::new());
        assert(views(rest@) =~= splitn(s, n as nat, sep));
        rest
    } else {
        let mut rest = split_from(cs, i + 1, n, sep);
        let ghost before = views(rest@);
        let ghost tail = rest@;
        let mut first = rest.remove(0);
        first.insert(0, cs[i]);
        assert(first@ =~= seq![cs@[i as int]] + before[0]);
        rest.insert(0, first);
        assert(rest@ =~= tail.update(0, first));
        assert(views(rest@) =~= before.update(0, seq![cs@[i as int]] + before[0]));
        rest
    }
}

/// Appends the characters of `s` to `out`.
pub fn push_text(out: &mut Vec<char>, s: &str)
    ensures
        final(out)@ == old(out)@ + s@,
{
    let mut cs = chars_of(s);
    out.append(&mut cs);
}

/// Splitting at most once keeps the whole text as one piece.
pub proof fn lemma_splitn_one(s: Seq<char>, sep: char)
    ensures
        splitn(s, 1, sep) == seq![s],
    decreases s.len(),
{
    if s.len() > 0 {
        lemma_splitn_one(s.drop_first(), sep);
        assert(seq![s[0]] + s.drop_first() =~= s);
        assert(splitn(s, 1, sep) =~= seq![s]);
    } else {
        assert(s =~= Seq::<char>::empty());
        assert(splitn(s, 1, sep) =~= seq![s]);
    }
}

/// A piece free of the separator, followed by the separator, comes off as
/// the first piece.
pub proof fn lemma_splitn_head(a: Seq<char>, rest: Seq<char>, n: nat, sep: char)
    requires
        !a.contains(sep),
        n > 1,
    ensures
        splitn(a + seq![sep] + rest, n, sep) == seq![a] + splitn(rest, (n - 1) as nat, sep),
    decreases a.len(),
{
    let s = a + seq![sep] + rest;
    if a.len() == 0 {
        assert(a =~= Seq::<char>::empty());
        assert(s[0] == sep);
        assert(s.drop_first() =~= rest);
        assert(splitn(s, n, sep) =~= seq![a] + splitn(rest, (n - 1) as nat, sep));
    } else {
        let t = a.drop_first();
        assert(!t.contains(sep)) by {
            if t.contains(sep) {
                let k = choose|k: int| 0 <= k < t.len() && t[k] == sep;
                assert(a[k + 1] == sep);
            }
        }
        assert(a[0] != sep) by {
            assert(a.contains(a[0]));
        }
        assert(s.drop_first() =~= t + seq![sep] + rest);
        lemma_splitn_head(t, rest, n, sep);
        assert(seq![a[0]] + t =~= a);
        assert(splitn(s, n, sep) =~= seq![a] + splitn(rest, (n - 1) as nat, sep));
    }
}

} // verus!
