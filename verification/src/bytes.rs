//! Byte-sequence helpers shared by the codec: first-occurrence search and
//! decimal ASCII digit strings.

use vstd::prelude::*;

verus! {

/// No occurrence of byte `b` anywhere in `s`.
pub open spec fn no_byte(s: Seq<u8>, b: u8) -> bool {
    forall|i: int| 0 <= i < s.len() ==> s[i] != b
}

/// Index of the first occurrence of `b` in `s`, if any.
pub open spec fn find_ix(s: Seq<u8>, b: u8) -> Option<int>
    decreases s.len(),
{
    if s.len() == 0 {
        None
    } else if s[0] == b {
        Some(0)
    } else {
        match find_ix(s.drop_first(), b) {
            None => None,
            Some(i) => Some(i + 1),
        }
    }
}

/// An index with the first-occurrence property — it holds `b` and nothing
/// before it does — is what `find_ix` returns.
pub proof fn lemma_find_ix_unique(s: Seq<u8>, b: u8, p: int)
    requires
        0 <= p < s.len(),
        s[p] == b,
        no_byte(s.take(p), b),
    ensures
        find_ix(s, b) == Some(p),
    decreases s.len(),
{
    if p == 0 {
    } else {
        assert(s[0] == s.take(p)[0]);
        assert(s.drop_first()[p - 1] == b);
        assert(s.drop_first().take(p - 1) =~= s.take(p).drop_first());
        lemma_find_ix_unique(s.drop_first(), b, p - 1);
    }
}

/// If `b` is absent from `s`, it is absent from every part of `s`.
pub proof fn lemma_find_ix_none(s: Seq<u8>, b: u8)
    requires
        no_byte(s, b),
    ensures
        find_ix(s, b) == None::<int>,
    decreases s.len(),
{
    if s.len() > 0 {
        lemma_find_ix_none(s.drop_first(), b);
    }
}

/// In `x + [b] + y` with `b` absent from `x`, the first `b` stands right
/// after `x`.
pub proof fn lemma_find_ix_concat(x: Seq<u8>, y: Seq<u8>, b: u8)
    requires
        no_byte(x, b),
    ensures
        find_ix(x + seq![b] + y, b) == Some(x.len() as int),
{
    let s = x + seq![b] + y;
    assert(s[x.len() as int] == b);
    assert(s.take(x.len() as int) =~= x);
    lemma_find_ix_unique(s, b, x.len() as int);
}

/// Scan `s` for the first occurrence of `b` at or after `from`.
pub fn find_byte_from(s: &[u8], from: usize, b: u8) -> (r: Option<usize>)
    requires
        from <= s@.len(),
    ensures
        match r {
            Some(i) => from <= i < s@.len() && s@[i as int] == b && (forall|j: int|
                from <= j < i ==> s@[j] != b),
            None => forall|j: int| from <= j < s@.len() ==> s@[j] != b,
        },
{
    let mut i: usize = from;
    while i < s.len()
        invariant
            from <= i <= s@.len(),
            forall|j: int| from <= j < i ==> s@[j] != b,
        decreases s@.len() - i,
    {
        if s[i] == b {
            return Some(i);
        }
        i = i + 1;
    }
    None
}

/// Whether `b` is an ASCII decimal digit.
pub open spec fn is_digit(b: u8) -> bool {
    48 <= b <= 57
}

/// Every byte of `s` is an ASCII decimal digit.
pub open spec fn all_digits(s: Seq<u8>) -> bool {
    forall|i: int| 0 <= i < s.len() ==> is_digit(#[trigger] s[i])
}

/// Numeric value of a digit string, most significant digit first.
pub open spec fn digits_val(s: Seq<u8>) -> nat
    decreases s.len(),
{
    if s.len() == 0 {
        0
    } else {
        digits_val(s.drop_last()) * 10 + (s.last() - 48) as nat
    }
}

/// Canonical decimal ASCII rendering of `n` (no leading zeros, `0` for zero).
pub open spec fn dec_of(n: nat) -> Seq<u8>
    decreases n,
{
    if n < 10 {
        seq![(48 + n) as u8]
    } else {
        dec_of(n / 10) + seq![(48 + n % 10) as u8]
    }
}

/// The canonical rendering is made of digits only and reads back to `n`.
pub proof fn lemma_dec_of_props(n: nat)
    ensures
        dec_of(n).len() >= 1,
        all_digits(dec_of(n)),
        digits_val(dec_of(n)) == n,
    decreases n,
{
    if n < 10 {
        assert(dec_of(n) =~= seq![(48 + n) as u8]);
        assert(digits_val(dec_of(n).drop_last()) == 0);
    } else {
        lemma_dec_of_props(n / 10);
        let d = dec_of(n);
        assert(d.drop_last() =~= dec_of(n / 10));
        assert(d.last() == (48 + n % 10) as u8);
        assert(digits_val(d) == (n / 10) * 10 + n % 10);
        assert((n / 10) * 10 + n % 10 == n) by (nonlinear_arith);
        assert forall|i: int| 0 <= i < d.len() implies is_digit(#[trigger] d[i]) by {
            if i < d.len() - 1 {
                assert(d[i] == dec_of(n / 10)[i]);
            }
        }
    }
}

/// Appending a digit multiplies the value by ten and adds the digit, so a
/// digit string is worth at least any of its prefixes.
pub proof fn lemma_digits_val_prefix(s: Seq<u8>, i: int)
    requires
        0 <= i <= s.len(),
    ensures
        digits_val(s) >= digits_val(s.take(i)),
    decreases s.len() - i,
{
    if i < s.len() {
        let t = s.take(i + 1);
        assert(t.drop_last() =~= s.take(i));
        assert(digits_val(t) == digits_val(s.take(i)) * 10 + (t.last() - 48) as nat);
        assert(digits_val(s.take(i)) * 10 >= digits_val(s.take(i))) by (nonlinear_arith);
        lemma_digits_val_prefix(s, i + 1);
        assert(s.take(s.len() as int) =~= s);
    } else {
        assert(s.take(s.len() as int) =~= s);
    }
}

/// Append the canonical decimal rendering of `n` to `out`.
pub fn push_dec(n: usize, out: &mut Vec<u8>)
    ensures
        final(out)@ == old(out)@ + dec_of(n as nat),
    decreases n,
{
    if n < 10 {
        out.push(48 + n as u8);
        assert(out@ =~= old(out)@ + dec_of(n as nat));
    } else {
        push_dec(n / 10, out);
        out.push(48 + (n % 10) as u8);
        assert(out@ =~= old(out)@ + dec_of(n as nat));
    }
}

/// Append every byte of `src` to `out`.
pub fn push_all(out: &mut Vec<u8>, src: &[u8])
    ensures
        final(out)@ == old(out)@ + src@,
{
    let mut i: usize = 0;
    while i < src.len()
        invariant
            i <= src@.len(),
            out@ == old(out)@ + src@.take(i as int),
        decreases src@.len() - i,
    {
        out.push(src[i]);
        assert(out@ =~= old(out)@ + src@.take(i + 1));
        i = i + 1;
    }
    assert(src@.take(src@.len() as int) =~= src@);
}

/// Parse a digit string, guarding against overflow: `Some` exactly when the
/// value fits in `usize`.
pub fn parse_digits(s: &[u8]) -> (r: Option<usize>)
    requires
        all_digits(s@),
    ensures
        match r {
            Some(v) => v as nat == digits_val(s@),
            None => digits_val(s@) > usize::MAX,
        },
{
    let mut i: usize = 0;
    let mut acc: usize = 0;
    while i < s.len()
        invariant
            all_digits(s@),
            i <= s@.len(),
            acc as nat == digits_val(s@.take(i as int)),
        decreases s@.len() - i,
    {
        let d = s[i];
        proof {
            assert(s@.take(i + 1).drop_last() =~= s@.take(i as int));
            assert(is_digit(s@[i as int]));
        }
        let ghost m: nat = usize::MAX as nat;
        let ghost a: nat = acc as nat;
        let ghost dv: nat = (d - 48) as nat;
        if acc > usize::MAX / 10 || (acc == usize::MAX / 10 && (d - 48) as usize > usize::MAX % 10)
        {
            proof {
                let t = s@.take(i + 1);
                assert(digits_val(t) == a * 10 + dv);
                assert(a * 10 + dv > m) by (nonlinear_arith)
                    requires
                        a > m / 10 || (a == m / 10 && dv > m % 10),
                        dv <= 9,
                        m == m / 10 * 10 + m % 10,
                ;
                lemma_digits_val_prefix(s@, i + 1);
            }
            return None;
        }
        proof {
            assert(a * 10 + dv <= m) by (nonlinear_arith)
                requires
                    a < m / 10 || (a == m / 10 && dv <= m % 10),
                    dv <= 9,
                    m == m / 10 * 10 + m % 10,
            ;
        }
        acc = acc * 10 + (d - 48) as usize;
        i = i + 1;
    }
    proof {
        assert(s@.take(s@.len() as int) =~= s@);
    }
    Some(acc)
}

} // verus!
