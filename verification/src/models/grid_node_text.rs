//! The text form of a [`GridNode`] used in saved maps: `"(x, y)"`, with both
//! coordinates written as decimal integers.
use vstd::prelude::*;

use super::grid_node::GridNode;

verus! {

/// Why a piece of text is not a valid 32-bit integer.
#[derive(Clone, Copy, Debug, PartialEq, Eq, Structural)]
pub enum IntErrorKind {
    /// The text is empty.
    Empty,
    /// The text holds a character that is not a digit (or only a sign).
    InvalidDigit,
    /// The number is larger than the largest 32-bit integer.
    PosOverflow,
    /// The number is smaller than the smallest 32-bit integer.
    NegOverflow,
}

/// Why a text is not a valid grid node.
#[derive(Clone, Copy, Debug, PartialEq, Eq, Structural)]
pub enum GridNodeParseError {
    /// The x coordinate is not a valid integer.
    InvalidX(IntErrorKind),
    /// There is no `", "` separating a y coordinate from the x coordinate.
    MissingY,
    /// The y coordinate is not a valid integer.
    InvalidY(IntErrorKind),
}

pub open spec fn is_digit(b: u8) -> bool {
    48 <= b <= 57
}

pub open spec fn is_paren(b: u8) -> bool {
    b == 40 || b == 41
}

/// The decimal digits of `n`, without leading zeros.
pub open spec fn nat_digits(n: nat) -> Seq<u8>
    decreases n,
{
    if n < 10 {
        seq![(48 + n) as u8]
    } else {
        nat_digits(n / 10).push((48 + n % 10) as u8)
    }
}

/// The decimal text of an integer, with a leading `-` when it is negative.
pub open spec fn int_text(v: int) -> Seq<u8> {
    if v < 0 {
        seq![45u8] + nat_digits((-v) as nat)
    } else {
        nat_digits(v as nat)
    }
}

/// The text of a grid node: `"(x, y)"`.
pub open spec fn node_text(n: GridNode) -> Seq<u8> {
    seq![40u8] + int_text(n.0 as int) + seq![44u8, 32u8] + int_text(n.1 as int) + seq![41u8]
}

/// The value of a sequence of decimal digits.
pub open spec fn digits_value(s: Seq<u8>) -> nat
    decreases s.len(),
{
    if s.len() == 0 {
        0
    } else {
        digits_value(s.drop_last()) * 10 + (s.last() - 48) as nat
    }
}

/// The index of the first byte at or after `i` that is not a digit, or the
/// length of `s` if there is none.
pub open spec fn first_non_digit(s: Seq<u8>, i: int) -> int
    decreases s.len() - i,
{
    if i < 0 || i >= s.len() {
        s.len() as int
    } else if !is_digit(s[i]) {
        i
    } else {
        first_non_digit(s, i + 1)
    }
}

/// What parsing the text `s` as a signed 32-bit decimal integer gives: an
/// optional `+` or `-`, then digits. Digits are read left to right, and the
/// first problem met decides the error: a number out of range is noticed as
/// soon as the digits read so far exceed the range, a non-digit as soon as it
/// is reached.
pub open spec fn parse_i32_spec(s: Seq<u8>) -> Result<i32, IntErrorKind> {
    if s.len() == 0 {
        Err(IntErrorKind::Empty)
    } else if (s[0] == 43 || s[0] == 45) && s.len() == 1 {
        Err(IntErrorKind::InvalidDigit)
    } else {
        let neg = s[0] == 45;
        let d = if s[0] == 43 || s[0] == 45 {
            s.drop_first()
        } else {
            s
        };
        let k = first_non_digit(d, 0);
        let v = digits_value(d.take(k));
        if !neg && v > i32::MAX {
            Err(IntErrorKind::PosOverflow)
        } else if neg && v > 0x8000_0000 {
            Err(IntErrorKind::NegOverflow)
        } else if k < d.len() {
            Err(IntErrorKind::InvalidDigit)
        } else if neg {
            Ok((-v) as i32)
        } else {
            Ok(v as i32)
        }
    }
}

/// How many parentheses `s` starts with.
pub open spec fn leading_parens(s: Seq<u8>) -> nat
    decreases s.len(),
{
    if s.len() > 0 && is_paren(s[0]) {
        1 + leading_parens(s.drop_first())
    } else {
        0
    }
}

/// How many parentheses `s` ends with.
pub open spec fn trailing_parens(s: Seq<u8>) -> nat
    decreases s.len(),
{
    if s.len() > 0 && is_paren(s.last()) {
        1 + trailing_parens(s.drop_last())
    } else {
        0
    }
}

/// `s` without the parentheses at its start and its end.
pub open spec fn trim_parens(s: Seq<u8>) -> Seq<u8> {
    let a = leading_parens(s);
    if a == s.len() {
        Seq::empty()
    } else {
        s.subrange(a as int, s.len() - trailing_parens(s))
    }
}

/// The index of the first `", "` in `s` at or after `i`, or -1 if none.
pub open spec fn first_sep_from(s: Seq<u8>, i: int) -> int
    decreases s.len() - i,
{
    if i < 0 || i + 1 >= s.len() {
        -1
    } else if s[i] == 44 && s[i + 1] == 32 {
        i
    } else {
        first_sep_from(s, i + 1)
    }
}

/// What reading a grid node from the text `s` gives: the parentheses around
/// it are dropped, the rest is split at `", "`, the first piece is the x
/// coordinate and the second the y coordinate; further pieces are ignored.
pub open spec fn parse_node_spec(s: Seq<u8>) -> Result<GridNode, GridNodeParseError> {
    let t = trim_parens(s);
    let p1 = first_sep_from(t, 0);
    let x_text = if p1 < 0 {
        t
    } else {
        t.take(p1)
    };
    match parse_i32_spec(x_text) {
        Err(k) => Err(GridNodeParseError::InvalidX(k)),
        Ok(x) => if p1 < 0 {
            Err(GridNodeParseError::MissingY)
        } else {
            let p2 = first_sep_from(t, p1 + 2);
            let y_text = if p2 < 0 {
                t.subrange(p1 + 2, t.len() as int)
            } else {
                t.subrange(p1 + 2, p2)
            };
            match parse_i32_spec(y_text) {
                Err(k) => Err(GridNodeParseError::InvalidY(k)),
                Ok(y) => Ok(GridNode(x, y)),
            }
        },
    }
}

fn push_digits(out: &mut Vec<u8>, n: u64)
    ensures
        final(out)@ == old(out)@ + nat_digits(n as nat),
    decreases n,
{
    if n >= 10 {
        push_digits(out, n / 10);
    }
    out.push((48 + n % 10) as u8);
    proof {
        if n >= 10 {
            assert(nat_digits(n as nat) == nat_digits((n / 10) as nat).push((48 + n % 10) as u8));
        }
    }
    assert(final(out)@ =~= old(out)@ + nat_digits(n as nat));
}

fn push_int(out: &mut Vec<u8>, v: i32)
    ensures
        final(out)@ == old(out)@ + int_text(v as int),
{
    if v < 0 {
        out.push(45u8);
        let m: u64 = (-(v as i64)) as u64;
        push_digits(out, m);
        assert(final(out)@ =~= old(out)@ + int_text(v as int));
    } else {
        push_digits(out, v as u64);
    }
}

/// Write a grid node as the text `"(x, y)"`.
pub fn encode_grid_node(node: GridNode) -> (r: Vec<u8>)
    ensures
        r@ == node_text(node),
{
    let mut out: Vec<u8> = Vec::new();
    out.push(40u8);
    push_int(&mut out, node.0);
    out.push(44u8);
    out.push(32u8);
    push_int(&mut out, node.1);
    out.push(41u8);
    assert(out@ =~= node_text(node));
    out
}

proof fn lemma_digits_value_step(s: Seq<u8>, i: int)
    requires
        0 <= i < s.len(),
    ensures
        digits_value(s.take(i + 1)) == digits_value(s.take(i)) * 10 + (s[i] - 48) as nat,
{
    assert(s.take(i + 1).drop_last() =~= s.take(i));
}

proof fn lemma_digits_value_monotone(s: Seq<u8>, i: int, j: int)
    requires
        0 <= i <= j <= s.len(),
        forall|k: int| 0 <= k < j ==> is_digit(#[trigger] s[k]),
    ensures
        digits_value(s.take(i)) <= digits_value(s.take(j)),
    decreases j - i,
{
    if i < j {
        lemma_digits_value_monotone(s, i, j - 1);
        lemma_digits_value_step(s, j - 1);
    }
}

proof fn lemma_first_non_digit_skip(s: Seq<u8>, i: int, j: int)
    requires
        0 <= i <= j <= s.len(),
        forall|k: int| i <= k < j ==> is_digit(#[trigger] s[k]),
    ensures
        first_non_digit(s, i) == first_non_digit(s, j),
    decreases j - i,
{
    if i < j {
        lemma_first_non_digit_skip(s, i + 1, j);
    }
}

fn parse_i32(s: &[u8]) -> (r: Result<i32, IntErrorKind>)
    ensures
        r == parse_i32_spec(s@),
{
    let n = s.len();
    if n == 0 {
        return Err(IntErrorKind::Empty);
    }
    if (s[0] == 43 || s[0] == 45) && n == 1 {
        return Err(IntErrorKind::InvalidDigit);
    }
    let neg = s[0] == 45;
    let start: usize = if s[0] == 43 || s[0] == 45 { 1 } else { 0 };
    let ghost d = if s@[0] == 43 || s@[0] == 45 { s@.drop_first() } else { s@ };
    let limit: u64 = if neg { 0x8000_0000 } else { 0x7fff_ffff };
    let mut acc: u64 = 0;
    let mut i: usize = start;
    assert(d =~= s@.subrange(start as int, n as int));
    while i < n
        invariant
            start <= i <= n,
            n == s@.len(),
            d == s@.subrange(start as int, n as int),
            neg == (s@[0] == 45),
            start == (if s@[0] == 43 || s@[0] == 45 { 1usize } else { 0usize }),
            limit == (if neg { 0x8000_0000u64 } else { 0x7fff_ffffu64 }),
            s@.len() > 0,
            !((s@[0] == 43 || s@[0] == 45) && s@.len() == 1),
            d == (if s@[0] == 43 || s@[0] == 45 { s@.drop_first() } else { s@ }),
            acc <= limit,
            acc == digits_value(d.take(i - start)),
            forall|k: int| 0 <= k < i - start ==> is_digit(#[trigger] d[k]),
            first_non_digit(d, 0) == first_non_digit(d, i - start),
        decreases n - i,
    {
        let c = s[i];
        let ghost j = i - start;
        if c < 48 || c > 57 {
            assert(first_non_digit(d, j) == j);
            return Err(IntErrorKind::InvalidDigit);
        }
        proof {
            lemma_digits_value_step(d, j);
            lemma_first_non_digit_skip(d, 0, j + 1);
        }
        acc = acc * 10 + (c - 48) as u64;
        i = i + 1;
        if acc > limit {
            proof {
                let k = first_non_digit(d, 0);
                lemma_first_non_digit_skip(d, 0, j + 1);
                assert(k >= j + 1) by {
                    assert(forall|m: int| 0 <= m < j + 1 ==> is_digit(#[trigger] d[m]));
                    lemma_first_non_digit_ge(d, 0, j + 1);
                }
                lemma_first_non_digit_bounds(d, 0);
                assert(forall|m: int| 0 <= m < k ==> is_digit(#[trigger] d[m])) by {
                    lemma_before_first_non_digit(d, 0);
                }
                lemma_digits_value_monotone(d, j + 1, k);
            }
            if neg {
                return Err(IntErrorKind::NegOverflow);
            } else {
                return Err(IntErrorKind::PosOverflow);
            }
        }
    }
    assert(first_non_digit(d, (n - start) as int) == d.len());
    assert(d.take(d.len() as int) =~= d);
    if neg {
        Ok((0i64 - acc as i64) as i32)
    } else {
        Ok(acc as i32)
    }
}

proof fn lemma_first_non_digit_bounds(s: Seq<u8>, i: int)
    requires
        0 <= i <= s.len(),
    ensures
        i <= first_non_digit(s, i) <= s.len(),
    decreases s.len() - i,
{
    if i < s.len() && is_digit(s[i]) {
        lemma_first_non_digit_bounds(s, i + 1);
    }
}

proof fn lemma_first_non_digit_ge(s: Seq<u8>, i: int, j: int)
    requires
        0 <= i <= j <= s.len(),
        forall|k: int| i <= k < j ==> is_digit(#[trigger] s[k]),
    ensures
        first_non_digit(s, i) >= j,
{
    lemma_first_non_digit_skip(s, i, j);
    lemma_first_non_digit_bounds(s, j);
}

proof fn lemma_before_first_non_digit(s: Seq<u8>, i: int)
    requires
        0 <= i <= s.len(),
    ensures
        forall|k: int| i <= k < first_non_digit(s, i) ==> is_digit(#[trigger] s[k]),
    decreases s.len() - i,
{
    if i < s.len() && is_digit(s[i]) {
        lemma_before_first_non_digit(s, i + 1);
    }
}

fn trimmed_bounds(s: &[u8]) -> (r: (usize, usize))
    ensures
        r.0 <= r.1 <= s@.len(),
        s@.subrange(r.0 as int, r.1 as int) == trim_parens(s@),
{
    let n = s.len();
    let mut a: usize = 0;
    assert(s@.subrange(0, n as int) =~= s@);
    while a < n && (s[a] == 40 || s[a] == 41)
        invariant
            a <= n,
            n == s@.len(),
            leading_parens(s@) == a + leading_parens(s@.subrange(a as int, n as int)),
        decreases n - a,
    {
        assert(s@.subrange(a as int, n as int).drop_first() =~= s@.subrange(a + 1, n as int));
        a = a + 1;
    }
    if a == n {
        assert(leading_parens(s@.subrange(a as int, n as int)) == 0);
        return (n, n);
    }
    assert(leading_parens(s@.subrange(a as int, n as int)) == 0);
    let mut b: usize = n;
    assert(s@.subrange(0, n as int) =~= s@);
    while b > a && (s[b - 1] == 40 || s[b - 1] == 41)
        invariant
            a < n,
            a < b <= n,
            n == s@.len(),
            !is_paren(s@[a as int]),
            trailing_parens(s@) == (n - b) + trailing_parens(s@.subrange(0, b as int)),
        decreases b,
    {
        assert(s@.subrange(0, b as int).drop_last() =~= s@.subrange(0, b - 1));
        b = b - 1;
    }
    if b == a {
        assert(false);
    }
    assert(trailing_parens(s@.subrange(0, b as int)) == 0);
    (a, b)
}

fn find_sep(t: &[u8], from: usize) -> (r: Option<usize>)
    ensures
        match r {
            Some(i) => i == first_sep_from(t@, from as int) && i >= from && i + 1 < t@.len(),
            None => first_sep_from(t@, from as int) == -1,
        },
{
    let n = t.len();
    let mut i = from;
    while i < n && i + 1 < n
        invariant
            from <= i,
            n == t@.len(),
            first_sep_from(t@, from as int) == first_sep_from(t@, i as int),
        decreases n - i,
    {
        if t[i] == 44 && t[i + 1] == 32 {
            return Some(i);
        }
        i = i + 1;
    }
    None
}

/// Read a grid node from its text form `"(x, y)"`.
pub fn parse_grid_node(s: &[u8]) -> (r: Result<GridNode, GridNodeParseError>)
    ensures
        r == parse_node_spec(s@),
{
    let (a, b) = trimmed_bounds(s);
    let t = &s[a..b];
    let ghost tt = trim_parens(s@);
    assert(t@ == tt);
    let p1 = find_sep(t, 0);
    let x_text: &[u8] = match p1 {
        Some(p) => &t[0..p],
        None => t,
    };
    proof {
        if let Some(p) = p1 {
            assert(x_text@ =~= tt.take(p as int));
        }
    }
    let x = match parse_i32(x_text) {
        Err(k) => {
            return Err(GridNodeParseError::InvalidX(k));
        },
        Ok(x) => x,
    };
    let p = match p1 {
        None => {
            return Err(GridNodeParseError::MissingY);
        },
        Some(p) => p,
    };
    let p2 = find_sep(t, p + 2);
    let y_text: &[u8] = match p2 {
        Some(q) => &t[p + 2..q],
        None => &t[p + 2..t.len()],
    };
    match parse_i32(y_text) {
        Err(k) => Err(GridNodeParseError::InvalidY(k)),
        Ok(y) => Ok(GridNode(x, y)),
    }
}

proof fn lemma_nat_digits_are_digits(n: nat)
    ensures
        nat_digits(n).len() > 0,
        forall|k: int| 0 <= k < nat_digits(n).len() ==> is_digit(#[trigger] nat_digits(n)[k]),
        digits_value(nat_digits(n)) == n,
    decreases n,
{
    if n >= 10 {
        lemma_nat_digits_are_digits(n / 10);
        let s = nat_digits(n);
        assert(s.drop_last() =~= nat_digits(n / 10));
        assert(s.last() == (48 + n % 10) as u8);
        assert(n == (n / 10) * 10 + n % 10) by (nonlinear_arith);
        assert(digits_value(s) == digits_value(s.drop_last()) * 10 + (s.last() - 48) as nat);
    } else {
        let s = nat_digits(n);
        assert(s.drop_last().len() == 0);
        assert(digits_value(s.drop_last()) == 0);
        assert(digits_value(s) == digits_value(s.drop_last()) * 10 + (s.last() - 48) as nat);
    }
}

proof fn lemma_parse_int_text(v: i32)
    ensures
        parse_i32_spec(int_text(v as int)) == Ok::<i32, IntErrorKind>(v),
        int_text(v as int).len() > 0,
        forall|k: int| 0 <= k < int_text(v as int).len() ==> {
            let c = #[trigger] int_text(v as int)[k];
            !is_paren(c) && c != 44
        },
        is_digit(int_text(v as int).last()),
{
    let t = int_text(v as int);
    if v < 0 {
        let m = (-v) as nat;
        lemma_nat_digits_are_digits(m);
        let d = nat_digits(m);
        assert(t.drop_first() =~= d);
        lemma_first_non_digit_skip(d, 0, d.len() as int);
        assert(d.take(d.len() as int) =~= d);
        assert(t.last() == d.last());
    } else {
        let m = v as nat;
        lemma_nat_digits_are_digits(m);
        let d = nat_digits(m);
        lemma_first_non_digit_skip(d, 0, d.len() as int);
        assert(d.take(d.len() as int) =~= d);
    }
}

proof fn lemma_first_sep_skip(s: Seq<u8>, i: int, j: int)
    requires
        0 <= i <= j,
        j <= s.len(),
        forall|k: int| i <= k < j ==> #[trigger] s[k] != 44,
    ensures
        first_sep_from(s, i) == first_sep_from(s, j),
    decreases j - i,
{
    if i < j {
        lemma_first_sep_skip(s, i + 1, j);
    }
}

/// Reading back the text that a grid node is written as gives that node.
pub proof fn lemma_grid_node_text_roundtrip(n: GridNode)
    ensures
        parse_node_spec(node_text(n)) == Ok::<GridNode, GridNodeParseError>(n),
{
    let x = int_text(n.0 as int);
    let y = int_text(n.1 as int);
    lemma_parse_int_text(n.0);
    lemma_parse_int_text(n.1);
    let s = node_text(n);
    let mid = x + seq![44u8, 32u8] + y;
    assert(s =~= seq![40u8] + mid + seq![41u8]);
    // one parenthesis on each side
    assert(s.drop_first() =~= mid + seq![41u8]);
    assert(s[1] == x[0]);
    assert(leading_parens(s.drop_first()) == 0);
    assert(leading_parens(s) == 1);
    assert(s.drop_last() =~= seq![40u8] + mid);
    assert(s.drop_last().last() == y.last());
    assert(trailing_parens(s.drop_last()) == 0);
    assert(trailing_parens(s) == 1);
    let t = trim_parens(s);
    assert(t =~= mid);
    // the separator follows the x coordinate
    lemma_first_sep_skip(t, 0, x.len() as int);
    assert(t[x.len() as int] == 44u8);
    assert(t[x.len() as int + 1] == 32u8);
    assert(first_sep_from(t, 0) == x.len());
    assert(t.take(x.len() as int) =~= x);
    // and no second separator follows
    let p: int = x.len() as int + 2;
    assert forall|k: int| p <= k < t.len() implies #[trigger] t[k] != 44 by {
        assert(t[k] == y[k - p]);
    }
    lemma_first_sep_skip(t, p, t.len() as int);
    assert(first_sep_from(t, t.len() as int) == -1);
    assert(t.subrange(p, t.len() as int) =~= y);
}

} // verus!
