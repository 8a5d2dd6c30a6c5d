//! The score file: the high scores on one line and the numbers of cleared
//! lines on the next, each as decimal numbers separated by single spaces.

use vstd::prelude::*;

verus! {

/// An ASCII decimal digit.
pub open spec fn is_digit(c: u8) -> bool {
    48 <= c <= 57
}

/// The decimal digits of `n`, most significant first, with no leading zero.
pub open spec fn digits(n: nat) -> Seq<u8>
    decreases n,
{
    if n < 10 {
        seq![(48 + n) as u8]
    } else {
        digits(n / 10).push((48 + n % 10) as u8)
    }
}

/// The number that a string of decimal digits denotes.
pub open spec fn digits_value(s: Seq<u8>) -> nat
    decreases s.len(),
{
    if s.len() == 0 {
        0
    } else {
        digits_value(s.drop_last()) * 10 + (s.last() - 48) as nat
    }
}

/// A non-empty string of digits without a leading zero.
pub open spec fn is_canonical(s: Seq<u8>) -> bool {
    &&& s.len() >= 1
    &&& forall|i: int| 0 <= i < s.len() ==> is_digit(#[trigger] s[i])
    &&& (s[0] != 48 || s.len() == 1)
}

/// The digits of a number are canonical and denote it.
proof fn lemma_digits(n: nat)
    ensures
        is_canonical(digits(n)),
        digits_value(digits(n)) == n,
        n >= 1 ==> digits(n)[0] != 48,
    decreases n,
{
    let s = digits(n);
    if n >= 10 {
        lemma_digits(n / 10);
        let d = digits(n / 10);
        assert(s.drop_last() =~= d);
        assert(s[0] == d[0]);
        assert(forall|i: int| 0 <= i < d.len() ==> s[i] == d[i]);
        assert(n == (n / 10) * 10 + n % 10) by (nonlinear_arith);
        assert(s.last() == 48 + n % 10);
        assert(digits_value(s) == digits_value(d) * 10 + (n % 10));
        assert(forall|i: int| 0 <= i < s.len() ==> is_digit(#[trigger] s[i]));
    } else {
        assert(s.drop_last() =~= Seq::<u8>::empty());
        assert(s.last() == 48 + n);
        assert(digits_value(s) == digits_value(Seq::<u8>::empty()) * 10 + n);
    }
}

/// A canonical digit string is the digits of the number it denotes.
proof fn lemma_canonical_digits(s: Seq<u8>)
    requires
        is_canonical(s),
    ensures
        digits(digits_value(s)) == s,
        s[0] != 48 ==> digits_value(s) >= 1,
    decreases s.len(),
{
    if s.len() > 1 {
        let t = s.drop_last();
        assert(t[0] == s[0]);
        assert(forall|i: int| 0 <= i < t.len() ==> t[i] == s[i]);
        lemma_canonical_digits(t);
        let a = digits_value(t);
        let d = (s.last() - 48) as nat;
        assert(a * 10 + d >= 10) by (nonlinear_arith)
            requires a >= 1;
        assert((a * 10 + d) / 10 == a && (a * 10 + d) % 10 == d) by (nonlinear_arith)
            requires d < 10;
        assert(s =~= t.push(s.last()));
        let v = a * 10 + d;
        assert(digits_value(s) == v);
        assert(digits(v) == digits(a).push((48 + v % 10) as u8));
    } else {
        assert(s.drop_last() =~= Seq::<u8>::empty());
        assert(digits_value(Seq::<u8>::empty()) == 0);
        assert(s.last() == s[0]);
        assert(digits_value(s) == s[0] - 48);
        assert(s =~= seq![s[0]]);
    }
}

/// Appends the decimal digits of `n` to `out`.
fn push_digits(out: &mut Vec<u8>, n: u32)
    ensures
        final(out)@ == old(out)@ + digits(n as nat),
    decreases n,
{
    if n >= 10 {
        push_digits(out, n / 10);
    }
    out.push(48 + (n % 10) as u8);
    proof {
        if n >= 10 {
            assert(old(out)@ + digits(n as nat) =~= old(out)@ + digits((n / 10) as nat) + seq![(48 + n % 10) as u8]);
        } else {
            assert(old(out)@ + digits(n as nat) =~= old(out)@.push((48 + n) as u8));
        }
    }
}

/// One line of the file: the numbers of `v` in decimal, separated by single
/// spaces, then a newline. An empty `v` gives a bare newline.
pub open spec fn line_bytes(v: Seq<u32>) -> Seq<u8>
    decreases v.len(),
{
    if v.len() == 0 {
        seq![10u8]
    } else if v.len() == 1 {
        digits(v[0] as nat).push(10u8)
    } else {
        digits(v[0] as nat) + seq![32u8] + line_bytes(v.drop_first())
    }
}

/// The whole file: the high scores on the first line, the numbers of lines
/// on the second.
pub open spec fn record_bytes(highscores: Seq<u32>, lines: Seq<u32>) -> Seq<u8> {
    line_bytes(highscores) + line_bytes(lines)
}

/// Each number of `v` in decimal, each followed by a space.
spec fn leading_bytes(v: Seq<u32>) -> Seq<u8>
    decreases v.len(),
{
    if v.len() == 0 {
        Seq::empty()
    } else {
        leading_bytes(v.drop_last()) + digits(v.last() as nat) + seq![32u8]
    }
}

/// A line is its first `k` numbers, each followed by a space, then the line
/// of the rest.
proof fn lemma_line_split(v: Seq<u32>, k: int)
    requires
        0 <= k < v.len(),
    ensures
        line_bytes(v) == leading_bytes(v.take(k)) + line_bytes(v.skip(k)),
    decreases k,
{
    if k == 0 {
        assert(v.take(0) =~= Seq::<u32>::empty());
        assert(v.skip(0) =~= v);
        assert(leading_bytes(v.take(0)) =~= Seq::<u8>::empty());
        assert(line_bytes(v) =~= leading_bytes(v.take(k)) + line_bytes(v.skip(k)));
    } else {
        lemma_line_split(v, k - 1);
        let w = v.skip(k - 1);
        assert(w.drop_first() =~= v.skip(k));
        assert(w[0] == v[k - 1]);
        assert(line_bytes(w) == digits(v[k - 1] as nat) + seq![32u8] + line_bytes(v.skip(k)));
        assert(v.take(k).drop_last() =~= v.take(k - 1));
        assert(leading_bytes(v.take(k)) == leading_bytes(v.take(k - 1)) + digits(v[k - 1] as nat)
            + seq![32u8]);
        assert(line_bytes(v) =~= leading_bytes(v.take(k)) + line_bytes(v.skip(k)));
    }
}

/// Appends one line of the file holding `v` to `out`.
fn push_line(out: &mut Vec<u8>, v: &Vec<u32>)
    ensures
        final(out)@ == old(out)@ + line_bytes(v@),
{
    let n = v.len();
    if n == 0 {
        out.push(10);
        assert(old(out)@ + line_bytes(v@) =~= old(out)@.push(10u8));
        return;
    }
    let ghost start = out@;
    let mut i: usize = 0;
    while i + 1 < n
        invariant
            n == v@.len(),
            i + 1 <= n,
            out@ == start + leading_bytes(v@.take(i as int)),
        decreases n - i,
    {
        push_digits(out, v[i]);
        out.push(32);
        proof {
            assert(v@.take(i + 1).drop_last() =~= v@.take(i as int));
            assert(out@ =~= start + leading_bytes(v@.take(i + 1)));
        }
        i = i + 1;
    }
    push_digits(out, v[i]);
    out.push(10);
    proof {
        lemma_line_split(v@, i as int);
        assert(v@.skip(i as int) =~= seq![v@[i as int]]);
        assert(line_bytes(v@.skip(i as int)) == digits(v@[i as int] as nat).push(10u8));
        assert(out@ =~= start + line_bytes(v@));
    }
}

/// The bytes of a score file holding `highscores` and `lines`.
pub fn encode_highscores_and_lines(highscores: &Vec<u32>, lines: &Vec<u32>) -> (r: Vec<u8>)
    ensures
        r@ == record_bytes(highscores@, lines@),
{
    let mut out: Vec<u8> = Vec::new();
    push_line(&mut out, highscores);
    push_line(&mut out, lines);
    assert(out@ =~= record_bytes(highscores@, lines@));
    out
}

/// `b` holds the digits of `n` from `p` up to `e`, and at `e` a byte that is
/// no digit.
pub open spec fn number_at(b: Seq<u8>, p: int, n: u32, e: int) -> bool {
    &&& 0 <= p < e < b.len()
    &&& b.subrange(p, e) == digits(n as nat)
    &&& !is_digit(b[e])
}

/// `b` holds, from `p` up to `e`, the line of the file that holds `v`.
pub open spec fn line_at(b: Seq<u8>, p: int, v: Seq<u32>, e: int) -> bool {
    &&& 0 <= p <= e <= b.len()
    &&& b.subrange(p, e) == line_bytes(v)
}

/// Leading digits denote no more than the whole string.
proof fn lemma_value_prefix(s: Seq<u8>, i: int)
    requires
        0 <= i <= s.len(),
    ensures
        digits_value(s.take(i)) <= digits_value(s),
    decreases s.len(),
{
    if i < s.len() {
        lemma_value_prefix(s.drop_last(), i);
        assert(s.drop_last().take(i) =~= s.take(i));
    } else {
        assert(s.take(i) =~= s);
    }
}

/// A number at a place is read in one way only.
proof fn lemma_number_unique(b: Seq<u8>, p: int, n: u32, e: int, m: u32, f: int)
    requires
        number_at(b, p, n, e),
        number_at(b, p, m, f),
    ensures
        n == m,
        e == f,
{
    lemma_digits(n as nat);
    lemma_digits(m as nat);
    if e < f {
        assert(b.subrange(p, f)[e - p] == b[e]);
    } else if f < e {
        assert(b.subrange(p, e)[f - p] == b[f]);
    }
}

/// Where `b` holds the line of `v` from `p`, and the first `k` numbers of `v`
/// with their spaces from `p` up to `q`, the next number stands at `q`,
/// followed by a newline where it is the last and by a space where it is not.
proof fn lemma_next_number(b: Seq<u8>, p: int, v: Seq<u32>, e: int, k: int, q: int)
    requires
        line_at(b, p, v, e),
        0 <= k < v.len(),
        p <= q <= b.len(),
        b.subrange(p, q) == leading_bytes(v.take(k)),
    ensures
        number_at(b, q, v[k], q + digits(v[k] as nat).len()),
        k + 1 == v.len() ==> b[q + digits(v[k] as nat).len()] == 10 && e == q + digits(
            v[k] as nat,
        ).len() + 1,
        k + 1 < v.len() ==> b[q + digits(v[k] as nat).len()] == 32,
{
    lemma_line_split(v, k);
    lemma_digits(v[k] as nat);
    let lead = leading_bytes(v.take(k));
    let w = v.skip(k);
    let lw = line_bytes(w);
    let d = digits(v[k] as nat);
    assert(w[0] == v[k]);
    assert(b.subrange(p, e) == lead + lw);
    assert(b.subrange(p, q).len() == q - p);
    assert(lead.len() == q - p);
    assert(b.subrange(p, e).len() == e - p);
    assert((lead + lw).len() == lead.len() + lw.len());
    assert(e == q + lw.len());
    assert forall|i: int| 0 <= i < lw.len() implies b[q + i] == #[trigger] lw[i] by {
        assert(b.subrange(p, e)[q - p + i] == b[q + i]);
    }
    if w.len() == 1 {
        assert(lw == d.push(10u8));
    } else {
        assert(lw == d + seq![32u8] + line_bytes(w.drop_first()));
    }
    assert(lw[d.len() as int] == 10 || lw[d.len() as int] == 32);
    assert forall|i: int| 0 <= i < d.len() implies lw[i] == d[i] by {}
    assert(b.subrange(q, q + d.len()) =~= d);
}

/// A line of the file is read in one way only.
proof fn lemma_line_unique(b: Seq<u8>, p: int, v: Seq<u32>, e: int, w: Seq<u32>, f: int)
    requires
        line_at(b, p, v, e),
        line_at(b, p, w, f),
    ensures
        v == w,
        e == f,
{
    if v.len() == 0 || w.len() == 0 {
        if v.len() != 0 {
            lemma_empty_line_alone(b, p, w, f, v, e);
        } else if w.len() != 0 {
            lemma_empty_line_alone(b, p, v, e, w, f);
        }
        assert(v =~= w);
        assert(b.subrange(p, e).len() == e - p);
        assert(b.subrange(p, f).len() == f - p);
    } else {
        assert(v.take(0) =~= w.take(0));
        lemma_lines_agree(b, p, v, e, w, f, 0);
    }
}

/// A line that holds no number is read as holding none.
proof fn lemma_empty_line_alone(b: Seq<u8>, p: int, v: Seq<u32>, e: int, w: Seq<u32>, f: int)
    requires
        line_at(b, p, v, e),
        line_at(b, p, w, f),
        v.len() == 0,
    ensures
        w.len() == 0,
{
    if w.len() != 0 {
        assert(w.take(0) =~= Seq::<u32>::empty());
        assert(leading_bytes(Seq::<u32>::empty()) =~= Seq::<u8>::empty());
        assert(b.subrange(p, p) =~= Seq::<u8>::empty());
        assert(b.subrange(p, e)[0] == b[p]);
        lemma_next_number(b, p, w, f, 0, p);
        let d = digits(w[0] as nat);
        lemma_digits(w[0] as nat);
        assert(b.subrange(p, p + d.len())[0] == b[p]);
        assert(is_digit(d[0]));
    }
}

/// Two readings of a line that agree on their first `k` numbers agree on all.
proof fn lemma_lines_agree(b: Seq<u8>, p: int, v: Seq<u32>, e: int, w: Seq<u32>, f: int, k: int)
    requires
        line_at(b, p, v, e),
        line_at(b, p, w, f),
        0 <= k < v.len(),
        k < w.len(),
        v.take(k) == w.take(k),
    ensures
        v == w,
        e == f,
    decreases v.len() - k,
{
    lemma_line_split(v, k);
    let q = p + leading_bytes(v.take(k)).len();
    assert(line_bytes(v).len() == leading_bytes(v.take(k)).len() + line_bytes(v.skip(k)).len());
    assert(q <= e);
    assert(b.subrange(p, q) =~= b.subrange(p, e).subrange(0, q - p));
    assert(line_bytes(v).subrange(0, q - p) =~= leading_bytes(v.take(k)));
    lemma_next_number(b, p, v, e, k, q);
    lemma_next_number(b, p, w, f, k, q);
    let dv = digits(v[k] as nat);
    let dw = digits(w[k] as nat);
    lemma_number_unique(b, q, v[k], q + dv.len(), w[k], q + dw.len());
    assert(v.take(k + 1) =~= w.take(k + 1));
    if k + 1 == v.len() {
        assert(v =~= v.take(k + 1));
        assert(w =~= w.take(k + 1));
    } else {
        lemma_lines_agree(b, p, v, e, w, f, k + 1);
    }
}

/// Reads a number at `p`: its canonical decimal digits, followed by a byte
/// that is no digit.
fn parse_number(b: &Vec<u8>, p: usize) -> (r: Option<(u32, usize)>)
    ensures
        r matches Some((n, e)) ==> number_at(b@, p as int, n, e as int),
        forall|n: u32, e: int| #[trigger] number_at(b@, p as int, n, e) ==> r == Some((n, e as usize)),
{
    if p >= b.len() {
        return None;
    }
    let mut q: usize = p;
    while q < b.len() && 48 <= b[q] && b[q] <= 57
        invariant
            p <= q <= b@.len(),
            forall|i: int| p <= i < q ==> is_digit(#[trigger] b@[i]),
        decreases b@.len() - q,
    {
        q = q + 1;
    }
    proof {
        assert forall|n: u32, e: int| #[trigger] number_at(b@, p as int, n, e) implies e == q
            && is_canonical(b@.subrange(p as int, q as int)) && digits_value(
            b@.subrange(p as int, q as int),
        ) == n by {
            lemma_digits(n as nat);
            let d = digits(n as nat);
            if e < q {
                assert(is_digit(b@[e]));
            } else if e > q {
                assert(b@.subrange(p as int, e)[q - p] == b@[q as int]);
                assert(is_digit(d[q - p]));
            }
        }
    }
    if q == p || q >= b.len() {
        return None;
    }
    if b[p] == 48 && q > p + 1 {
        proof {
            assert forall|n: u32, e: int| #[trigger] number_at(b@, p as int, n, e) implies false by {
                assert(b@.subrange(p as int, q as int)[0] == b@[p as int]);
            }
        }
        return None;
    }
    let ghost s = b@.subrange(p as int, q as int);
    let mut acc: u64 = 0;
    let mut i: usize = p;
    while i < q
        invariant
            p <= i <= q < b@.len(),
            s == b@.subrange(p as int, q as int),
            acc == digits_value(b@.subrange(p as int, i as int)),
            acc <= u32::MAX,
            forall|i: int| p <= i < q ==> is_digit(#[trigger] b@[i]),
            forall|n: u32, e: int| #[trigger] number_at(b@, p as int, n, e) ==> e == q
                && digits_value(s) == n,
        decreases q - i,
    {
        assert(b@.subrange(p as int, i + 1).drop_last() =~= b@.subrange(p as int, i as int));
        assert(is_digit(b@[i as int]));
        let next: u64 = acc * 10 + (b[i] - 48) as u64;
        if next > u32::MAX as u64 {
            proof {
                assert forall|n: u32, e: int| #[trigger] number_at(b@, p as int, n, e) implies false by {
                    assert(s.take(i + 1 - p) =~= b@.subrange(p as int, i + 1));
                    lemma_value_prefix(s, i + 1 - p);
                }
            }
            return None;
        }
        acc = next;
        i = i + 1;
    }
    proof {
        assert(forall|j: int| 0 <= j < s.len() ==> s[j] == b@[p + j]);
        lemma_canonical_digits(s);
    }
    Some((acc as u32, q))
}

/// Reads the line of the file that starts at `p`, and returns its numbers and
/// where the next line starts.
fn parse_line(b: &Vec<u8>, p: usize) -> (r: Option<(Vec<u32>, usize)>)
    ensures
        r matches Some((v, e)) ==> line_at(b@, p as int, v@, e as int),
        forall|v: Seq<u32>, e: int| #[trigger] line_at(b@, p as int, v, e) ==> (r matches Some((
            w,
            f,
        )) && w@ == v && f == e),
{
    if p >= b.len() {
        proof {
            assert forall|v: Seq<u32>, e: int| #[trigger] line_at(b@, p as int, v, e) implies false by {
                assert(line_bytes(v).len() > 0);
            }
        }
        return None;
    }
    if b[p] == 10 {
        let v: Vec<u32> = Vec::new();
        proof {
            assert(b@.subrange(p as int, p + 1) =~= line_bytes(v@));
            assert forall|w: Seq<u32>, e: int| #[trigger] line_at(b@, p as int, w, e) implies w
                == v@ && e == p + 1 by {
                lemma_line_unique(b@, p as int, v@, p + 1, w, e);
            }
        }
        return Some((v, p + 1));
    }
    let mut acc: Vec<u32> = Vec::new();
    let mut q: usize = p;
    proof {
        assert(b@.subrange(p as int, p as int) =~= leading_bytes(acc@));
        assert forall|v: Seq<u32>, e: int| #[trigger] line_at(b@, p as int, v, e) implies v.len()
            > 0 by {
            if v.len() == 0 {
                assert(b@.subrange(p as int, e)[0] == b@[p as int]);
            }
        }
    }
    loop
        invariant
            p <= q <= b@.len() <= usize::MAX,
            b@.subrange(p as int, q as int) == leading_bytes(acc@),
            forall|v: Seq<u32>, e: int| #[trigger] line_at(b@, p as int, v, e) ==> acc@.len()
                < v.len() && acc@ == v.take(acc@.len() as int),
        decreases b@.len() - q,
    {
        let ghost k = acc@.len() as int;
        let ghost before = acc@;
        proof {
            assert forall|v: Seq<u32>, e: int| #[trigger] line_at(b@, p as int, v, e) implies number_at(
                b@,
                q as int,
                v[k],
                q + digits(v[k] as nat).len(),
            ) by {
                lemma_next_number(b@, p as int, v, e, k, q as int);
            }
        }
        match parse_number(b, q) {
            None => {
                proof {
                    assert forall|v: Seq<u32>, e: int| #[trigger] line_at(b@, p as int, v, e) implies false by {
                        assert(number_at(b@, q as int, v[k], q + digits(v[k] as nat).len()));
                    }
                }
                return None;
            },
            Some((n, e)) => {
                acc.push(n);
                proof {
                    assert(number_at(b@, q as int, n, e as int));
                    lemma_digits(n as nat);
                    assert(acc@.drop_last() =~= before);
                    assert(b@.subrange(p as int, e as int) =~= b@.subrange(p as int, q as int)
                        + digits(n as nat));
                    assert forall|v: Seq<u32>, f: int| #[trigger] line_at(b@, p as int, v, f) implies v[k]
                        == n && e == q + digits(v[k] as nat).len() && acc@ =~= v.take(k + 1) by {
                        lemma_next_number(b@, p as int, v, f, k, q as int);
                        lemma_number_unique(
                            b@,
                            q as int,
                            n,
                            e as int,
                            v[k],
                            q + digits(v[k] as nat).len(),
                        );
                    }
                }
                if b[e] == 10 {
                    proof {
                        assert(acc@.take(k) =~= before);
                        assert(acc@.skip(k) =~= seq![n]);
                        lemma_line_split(acc@, k);
                        assert(b@.subrange(p as int, e + 1) =~= b@.subrange(p as int, e as int).push(
                            10u8,
                        ));
                        assert(line_at(b@, p as int, acc@, e + 1));
                        assert forall|v: Seq<u32>, f: int| #[trigger] line_at(b@, p as int, v, f) implies v
                            == acc@ && f == e + 1 by {
                            lemma_line_unique(b@, p as int, acc@, e + 1, v, f);
                        }
                    }
                    return Some((acc, e + 1));
                } else if b[e] == 32 {
                    proof {
                        assert(b@.subrange(p as int, e + 1) =~= leading_bytes(acc@));
                        assert forall|v: Seq<u32>, f: int| #[trigger] line_at(b@, p as int, v, f) implies k
                            + 1 < v.len() by {
                            lemma_next_number(b@, p as int, v, f, k, q as int);
                        }
                    }
                    q = e + 1;
                } else {
                    proof {
                        assert forall|v: Seq<u32>, f: int| #[trigger] line_at(b@, p as int, v, f) implies false by {
                            lemma_next_number(b@, p as int, v, f, k, q as int);
                        }
                    }
                    return None;
                }
            },
        }
    }
}

/// The file that holds `highscores` and `lines` holds each line at its place.
proof fn lemma_record_lines(highscores: Seq<u32>, lines: Seq<u32>)
    ensures
        line_at(
            record_bytes(highscores, lines),
            0,
            highscores,
            line_bytes(highscores).len() as int,
        ),
        line_at(
            record_bytes(highscores, lines),
            line_bytes(highscores).len() as int,
            lines,
            record_bytes(highscores, lines).len() as int,
        ),
{
    let b = record_bytes(highscores, lines);
    let m = line_bytes(highscores).len() as int;
    assert(b.subrange(0, m) =~= line_bytes(highscores));
    assert(b.subrange(m, b.len() as int) =~= line_bytes(lines));
}

/// A score file is read back in one way only: two pairs of sequences that
/// give the same bytes are the same pair. So what is written is what is read.
pub proof fn lemma_record_bytes_injective(
    highscores1: Seq<u32>,
    lines1: Seq<u32>,
    highscores2: Seq<u32>,
    lines2: Seq<u32>,
)
    requires
        record_bytes(highscores1, lines1) == record_bytes(highscores2, lines2),
    ensures
        highscores1 == highscores2,
        lines1 == lines2,
{
    let b = record_bytes(highscores1, lines1);
    lemma_record_lines(highscores1, lines1);
    lemma_record_lines(highscores2, lines2);
    lemma_line_unique(
        b,
        0,
        highscores1,
        line_bytes(highscores1).len() as int,
        highscores2,
        line_bytes(highscores2).len() as int,
    );
    lemma_line_unique(
        b,
        line_bytes(highscores1).len() as int,
        lines1,
        b.len() as int,
        lines2,
        b.len() as int,
    );
}

/// Reads a score file: `Some` of its high scores and numbers of lines
/// exactly where the bytes are those that the two sequences give.
pub fn decode_highscores_and_lines(b: &Vec<u8>) -> (r: Option<(Vec<u32>, Vec<u32>)>)
    ensures
        r matches Some((highscores, lines)) ==> b@ == record_bytes(highscores@, lines@),
        forall|highscores: Seq<u32>, lines: Seq<u32>| #[trigger]
            record_bytes(highscores, lines) == b@ ==> (r matches Some((h, l)) && h@ == highscores
                && l@ == lines),
{
    proof {
        assert forall|highscores: Seq<u32>, lines: Seq<u32>| #[trigger]
            record_bytes(highscores, lines) == b@ implies line_at(
            b@,
            0,
            highscores,
            line_bytes(highscores).len() as int,
        ) by {
            lemma_record_lines(highscores, lines);
        }
    }
    let (highscores, e) = match parse_line(b, 0) {
        Some(x) => x,
        None => {
            return None;
        },
    };
    proof {
        assert forall|h: Seq<u32>, l: Seq<u32>| #[trigger] record_bytes(h, l) == b@ implies line_at(
            b@,
            e as int,
            l,
            b@.len() as int,
        ) by {
            lemma_record_lines(h, l);
            assert(line_at(b@, 0, h, line_bytes(h).len() as int));
        }
    }
    let (lines, f) = match parse_line(b, e) {
        Some(x) => x,
        None => {
            return None;
        },
    };
    if f != b.len() {
        return None;
    }
    proof {
        assert(b@ =~= b@.subrange(0, e as int) + b@.subrange(e as int, f as int));
    }
    Some((highscores, lines))
}

} // verus!
