//! Line-oriented text handling for the storage tool's output.
use vstd::prelude::*;

verus! {

/// Relies on `str::chars` collected into a `Vec`: the characters of `s` in order.
#[verifier::external_body]
pub(crate) fn chars_of(s: &str) -> (r: Vec<char>)
    ensures
        r@ == s@,
{
    s.chars().collect()
}

/// Relies on `String`'s `FromIterator<&char>`: the characters of `v`, in order.
#[verifier::external_body]
pub(crate) fn string_of(v: &Vec<char>) -> (r: String)
    ensures
        r@ == v@,
{
    v.iter().collect()
}

/// `k` is where the first `c` of `t` stands, or the length of `t` when there is none.
pub open spec fn is_first_index(t: Seq<char>, c: char, k: int) -> bool {
    &&& 0 <= k <= t.len()
    &&& k == t.len() || t[k] == c
    &&& forall|j: int| 0 <= j < k ==> t[j] != c
}

/// Position of the first `c` in `t`, or `t.len()` when `c` does not occur.
pub open spec fn first_index(t: Seq<char>, c: char) -> int {
    choose|k: int| is_first_index(t, c, k)
}

/// The first position of `c` is the one position that `is_first_index` describes.
pub proof fn lemma_first_index(t: Seq<char>, c: char, k: int)
    requires
        is_first_index(t, c, k),
    ensures
        first_index(t, c) == k,
{
    let f = first_index(t, c);
    assert(is_first_index(t, c, f));
    if f < k {
        assert(t[f] == c);
    } else if k < f {
        assert(t[k] == c);
    }
}

/// A line that ended in a newline loses one carriage return before it.
pub open spec fn strip_cr(l: Seq<char>) -> Seq<char> {
    if l.len() > 0 && l.last() == '\r' {
        l.drop_last()
    } else {
        l
    }
}

/// The lines of `t`: split at each newline, a final newline ending the last
/// line rather than starting an empty one, and "\r\n" counted as a newline.
pub open spec fn lines_of(t: Seq<char>) -> Seq<Seq<char>>
    decreases t.len(),
{
    if t.len() == 0 {
        seq![]
    } else {
        let k = first_index(t, '\n');
        if 0 <= k < t.len() {
            seq![strip_cr(t.subrange(0, k))] + lines_of(t.subrange(k + 1, t.len() as int))
        } else {
            seq![t]
        }
    }
}

/// First position at or after `start` holding `c`, or `v.len()`.
pub fn find_from(v: &Vec<char>, start: usize, c: char) -> (k: usize)
    requires
        start <= v@.len(),
    ensures
        start <= k <= v@.len(),
        k - start == first_index(v@.subrange(start as int, v@.len() as int), c),
{
    let mut k = start;
    while k < v.len() && v[k] != c
        invariant
            start <= k <= v@.len(),
            forall|j: int| start <= j < k ==> v@[j] != c,
        decreases v@.len() - k,
    {
        k = k + 1;
    }
    proof {
        let t = v@.subrange(start as int, v@.len() as int);
        assert(is_first_index(t, c, k - start));
        lemma_first_index(t, c, k - start);
    }
    k
}

/// The characters of `v` from `from` up to, not including, `to`.
pub fn copy_range(v: &Vec<char>, from: usize, to: usize) -> (r: Vec<char>)
    requires
        from <= to <= v@.len(),
    ensures
        r@ == v@.subrange(from as int, to as int),
{
    let mut r: Vec<char> = Vec::new();
    let mut i = from;
    while i < to
        invariant
            from <= i <= to <= v@.len(),
            r@ == v@.subrange(from as int, i as int),
        decreases to - i,
    {
        r.push(v[i]);
        proof {
            assert(r@ =~= v@.subrange(from as int, i + 1));
        }
        i = i + 1;
    }
    r
}

/// Splits `text` into its lines, as `BufRead::lines` does.
pub fn split_lines(text: &str) -> (r: Vec<Vec<char>>)
    ensures
        r@.len() == lines_of(text@).len(),
        forall|i: int| 0 <= i < r@.len() ==> #[trigger] r@[i]@ == lines_of(text@)[i],
{
    let v = chars_of(text);
    let n = v.len();
    let mut r: Vec<Vec<char>> = Vec::new();
    let mut start: usize = 0;
    let ghost t = v@;
    proof {
        assert(t.subrange(0, n as int) =~= t);
        assert(Seq::new(r@.len(), |i: int| r@[i]@) =~= Seq::<Seq<char>>::empty());
    }
    while start < n
        invariant
            n == v@.len(),
            t == v@,
            t == text@,
            start <= n,
            lines_of(t) == Seq::new(r@.len(), |i: int| r@[i]@) + lines_of(
                t.subrange(start as int, n as int),
            ),
        decreases n - start,
    {
        let k = find_from(&v, start, '\n');
        let ghost rest = t.subrange(start as int, n as int);
        let ghost old_r = r@;
        if k < n {
            let mut line = copy_range(&v, start, k);
            if line.len() > 0 && line[line.len() - 1] == '\r' {
                line.pop();
            }
            proof {
                assert(rest.subrange(0, k - start) =~= t.subrange(start as int, k as int));
                assert(rest.subrange(k - start + 1, rest.len() as int) =~= t.subrange(
                    k + 1,
                    n as int,
                ));
                assert(line@ == strip_cr(t.subrange(start as int, k as int)));
            }
            r.push(line);
            proof {
                assert(Seq::new(r@.len(), |i: int| r@[i]@) =~= Seq::new(
                    old_r.len(),
                    |i: int| old_r[i]@,
                ).push(line@));
            }
            start = k + 1;
        } else {
            let line = copy_range(&v, start, n);
            r.push(line);
            proof {
                assert(rest =~= t.subrange(start as int, n as int));
                assert(lines_of(t.subrange(n as int, n as int)) == Seq::<Seq<char>>::empty());
                assert(Seq::new(r@.len(), |i: int| r@[i]@) =~= Seq::new(
                    old_r.len(),
                    |i: int| old_r[i]@,
                ).push(line@));
            }
            start = n;
        }
    }
    proof {
        assert(t.subrange(n as int, n as int).len() == 0);
        assert(lines_of(t) =~= Seq::new(r@.len(), |i: int| r@[i]@));
    }
    r
}

pub open spec fn is_digit(c: char) -> bool {
    '0' <= c <= '9'
}

/// Value of a run of decimal digits, most significant first.
pub open spec fn digits_value(d: Seq<char>) -> nat
    decreases d.len(),
{
    if d.len() == 0 {
        0
    } else {
        digits_value(d.drop_last()) * 10 + ((d.last() as int) - ('0' as int)) as nat
    }
}

/// The digits of an unsigned decimal text: all of it, or what follows a leading '+'.
pub open spec fn unsigned_digits(s: Seq<char>) -> Seq<char> {
    if s.len() > 0 && s[0] == '+' {
        s.drop_first()
    } else {
        s
    }
}

/// An optional '+' followed by one or more decimal digits.
pub open spec fn is_unsigned_text(s: Seq<char>) -> bool {
    &&& unsigned_digits(s).len() > 0
    &&& forall|i: int| 0 <= i < unsigned_digits(s).len() ==> is_digit(#[trigger] unsigned_digits(s)[i])
}

proof fn lemma_digits_value_grows(d: Seq<char>, i: int, j: int)
    requires
        0 <= i <= j <= d.len(),
        forall|k: int| 0 <= k < d.len() ==> is_digit(#[trigger] d[k]),
    ensures
        digits_value(d.subrange(0, i)) <= digits_value(d.subrange(0, j)),
    decreases j - i,
{
    if i < j {
        lemma_digits_value_grows(d, i, j - 1);
        assert(d.subrange(0, j).drop_last() =~= d.subrange(0, j - 1));
        assert(is_digit(d[j - 1]));
    }
}

/// Reads an unsigned decimal number that fits in `usize`, as `str::parse::<usize>` does.
pub fn parse_usize(s: &Vec<char>) -> (r: Option<usize>)
    ensures
        r is Some <==> is_unsigned_text(s@) && digits_value(unsigned_digits(s@)) <= usize::MAX,
        r is Some ==> r->0 == digits_value(unsigned_digits(s@)),
{
    let n = s.len();
    let start: usize = if n > 0 && s[0] == '+' { 1 } else { 0 };
    let ghost d = unsigned_digits(s@);
    proof {
        assert(d =~= s@.subrange(start as int, n as int));
    }
    if start == n {
        return None;
    }
    let mut acc: usize = 0;
    let mut i = start;
    while i < n
        invariant
            start <= i <= n,
            n == s@.len(),
            start < n,
            d == s@.subrange(start as int, n as int),
            d == unsigned_digits(s@),
            forall|k: int| start <= k < i ==> is_digit(#[trigger] s@[k]),
            acc == digits_value(d.subrange(0, i - start)),
        decreases n - i,
    {
        let c = s[i];
        if !('0' <= c && c <= '9') {
            proof {
                assert(d[i - start] == s@[i as int]);
                assert(!is_digit(unsigned_digits(s@)[i - start]));
            }
            return None;
        }
        let dv = (c as u32 - '0' as u32) as usize;
        proof {
            assert(d.subrange(0, i + 1 - start).drop_last() =~= d.subrange(0, i - start));
        }
        if acc > (usize::MAX - dv) / 10 {
            proof {
                assert(digits_value(d.subrange(0, i + 1 - start)) > usize::MAX) by (nonlinear_arith)
                    requires
                        acc > (usize::MAX - dv) / 10,
                        digits_value(d.subrange(0, i + 1 - start)) == acc * 10 + dv,
                        dv <= 9;
                let j = i + 1;
                if exists|k: int| start <= k < n && !is_digit(#[trigger] s@[k]) {
                    let k = choose|k: int| start <= k < n && !is_digit(#[trigger] s@[k]);
                    assert(d[k - start] == s@[k]);
                    assert(!is_digit(unsigned_digits(s@)[k - start]));
                } else {
                    assert forall|k: int| 0 <= k < d.len() implies is_digit(#[trigger] d[k]) by {
                        assert(is_digit(s@[k + start]));
                    }
                    lemma_digits_value_grows(d, i + 1 - start, d.len() as int);
                    assert(d.subrange(0, d.len() as int) =~= d);
                    assert(digits_value(unsigned_digits(s@)) > usize::MAX);
                }
            }
            return None;
        }
        acc = acc * 10 + dv;
        i = i + 1;
    }
    proof {
        assert(d.subrange(0, n - start) =~= d);
        assert forall|k: int| 0 <= k < d.len() implies is_digit(#[trigger] d[k]) by {
            assert(is_digit(s@[k + start]));
        }
    }
    Some(acc)
}

} // verus!
