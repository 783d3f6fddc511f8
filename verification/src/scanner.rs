//! Reading text as whitespace-separated tokens, and the decimal integers
//! that tokens spell.
use vstd::prelude::*;
use crate::geometry::Point;

verus! {

/// An ASCII whitespace byte: space, tab, line feed, vertical tab, form feed
/// or carriage return.
pub open spec fn is_space(b: u8) -> bool {
    b == 32 || (9 <= b && b <= 13)
}

/// An ASCII decimal digit.
pub open spec fn is_digit(b: u8) -> bool {
    48 <= b && b <= 57
}

/// The tokens of `s`: its maximal runs of bytes that are not whitespace, in
/// order.
pub open spec fn split_ws(s: Seq<u8>) -> Seq<Seq<u8>>
    decreases s.len(),
{
    if s.len() == 0 {
        Seq::empty()
    } else {
        let rest = split_ws(s.drop_last());
        let c = s.last();
        if is_space(c) {
            rest
        } else if s.len() >= 2 && !is_space(s[s.len() - 2]) {
            rest.update(rest.len() - 1, rest.last().push(c))
        } else {
            rest.push(seq![c])
        }
    }
}

/// Every byte of `s` is a digit.
pub open spec fn all_digits(s: Seq<u8>) -> bool {
    forall|i: int| 0 <= i < s.len() ==> is_digit(#[trigger] s[i])
}

/// The number that the digits `s` spell in base ten.
pub open spec fn digits_value(s: Seq<u8>) -> nat
    decreases s.len(),
{
    if s.len() == 0 {
        0
    } else {
        digits_value(s.drop_last()) * 10 + (s.last() - 48) as nat
    }
}

/// The integer that the token `s` spells: an optional `+` sign (or `-`
/// sign, where `signed`) followed by at least one digit.
pub open spec fn decimal_value(s: Seq<u8>, signed: bool) -> Option<int> {
    if s.len() >= 2 && s[0] == 43 && all_digits(s.skip(1)) {
        Some(digits_value(s.skip(1)) as int)
    } else if signed && s.len() >= 2 && s[0] == 45 && all_digits(s.skip(1)) {
        Some(-(digits_value(s.skip(1)) as int))
    } else if s.len() >= 1 && all_digits(s) {
        Some(digits_value(s) as int)
    } else {
        None
    }
}

/// The token `s` spells an integer in `lo..=hi`.
pub open spec fn spells_in(s: Seq<u8>, signed: bool, lo: int, hi: int) -> bool {
    decimal_value(s, signed) matches Some(v) && lo <= v <= hi
}

proof fn lemma_split_last(s: Seq<u8>)
    requires
        s.len() > 0,
        !is_space(s.last()),
    ensures
        split_ws(s).len() > 0,
    decreases s.len(),
{
    if s.len() >= 2 && !is_space(s[s.len() - 2]) {
        lemma_split_last(s.drop_last());
    }
}

proof fn lemma_digits_prefix(s: Seq<u8>, k: int)
    requires
        0 <= k <= s.len(),
    ensures
        digits_value(s.take(k)) <= digits_value(s),
    decreases s.len(),
{
    if k < s.len() {
        assert(s.drop_last().take(k) =~= s.take(k));
        lemma_digits_prefix(s.drop_last(), k);
    } else {
        assert(s.take(k) =~= s);
    }
}

/// The tokens of `s`, in order.
pub fn split_whitespace(s: &[u8]) -> (r: Vec<Vec<u8>>)
    ensures
        r@.map_values(|t: Vec<u8>| t@) == split_ws(s@),
{
    let mut res: Vec<Vec<u8>> = Vec::new();
    for i in 0..s.len()
        invariant
            res@.map_values(|t: Vec<u8>| t@) == split_ws(s@.take(i as int)),
    {
        let c = s[i];
        let ghost prev = s@.take(i as int);
        assert(s@.take(i + 1).drop_last() =~= prev);
        if c == 32 || (9 <= c && c <= 13) {
        } else if i > 0 && !(s[i - 1] == 32 || (9 <= s[i - 1] && s[i - 1] <= 13)) {
            proof {
                assert(prev.last() == s@[i - 1]);
                lemma_split_last(prev);
            }
            let ghost before = res@;
            let mut last = res.pop().unwrap();
            last.push(c);
            res.push(last);
            assert(res@.map_values(|t: Vec<u8>| t@) =~= split_ws(s@.take(i + 1)));
        } else {
            let mut tok: Vec<u8> = Vec::new();
            tok.push(c);
            res.push(tok);
            assert(res@.map_values(|t: Vec<u8>| t@) =~= split_ws(s@.take(i + 1)));
        }
    }
    assert(s@.take(s@.len() as int) =~= s@);
    res
}

/// The number that the digits of `tok` from `start` on spell, where they are
/// all digits and the number fits in a `u64`.
fn magnitude(tok: &[u8], start: usize) -> (r: Option<u64>)
    requires
        start <= tok@.len(),
    ensures
        r is Some <==> (all_digits(tok@.skip(start as int)) && digits_value(tok@.skip(start as int))
            <= u64::MAX),
        r matches Some(m) ==> m == digits_value(tok@.skip(start as int)),
{
    let ghost rest = tok@.skip(start as int);
    let mut acc: u64 = 0;
    let mut i = start;
    while i < tok.len()
        invariant
            start <= i <= tok@.len(),
            rest == tok@.skip(start as int),
            all_digits(tok@.subrange(start as int, i as int)),
            acc == digits_value(tok@.subrange(start as int, i as int)),
        decreases tok@.len() - i,
    {
        let c = tok[i];
        assert(rest[i - start] == c);
        if c < 48 || c > 57 {
            return None;
        }
        let ghost next = tok@.subrange(start as int, i + 1);
        assert(next.drop_last() =~= tok@.subrange(start as int, i as int));
        assert(next =~= rest.take(i + 1 - start));
        proof {
            if all_digits(rest) {
                lemma_digits_prefix(rest, i + 1 - start);
            }
        }
        match acc.checked_mul(10) {
            None => {
                return None;
            },
            Some(a) => match a.checked_add((c - 48) as u64) {
                None => {
                    return None;
                },
                Some(b) => {
                    acc = b;
                },
            },
        }
        i += 1;
    }
    assert(tok@.subrange(start as int, i as int) =~= rest);
    Some(acc)
}

/// The integer that `tok` spells, as `(negative, magnitude)`, where its
/// magnitude fits in a `u64`.
fn parse_parts(tok: &[u8], signed: bool) -> (r: Option<(bool, u64)>)
    ensures
        r matches Some((neg, m)) ==> decimal_value(tok@, signed) == Some(
            if neg {
                -(m as int)
            } else {
                m as int
            },
        ),
        r is None ==> (decimal_value(tok@, signed) matches Some(v) ==> v > u64::MAX || v < -(
        u64::MAX as int)),
{
    if tok.len() >= 2 && tok[0] == 43 {
        let m = magnitude(tok, 1);
        match m {
            Some(m) => Some((false, m)),
            None => None,
        }
    } else if signed && tok.len() >= 2 && tok[0] == 45 {
        let m = magnitude(tok, 1);
        match m {
            Some(m) => Some((true, m)),
            None => None,
        }
    } else if tok.len() >= 1 {
        assert(tok@.skip(0) =~= tok@);
        let m = magnitude(tok, 0);
        proof {
            if tok@[0] == 43 || tok@[0] == 45 {
                assert(!is_digit(tok@[0]));
            }
        }
        match m {
            Some(m) => Some((false, m)),
            None => None,
        }
    } else {
        None
    }
}

/// The `i64` that `tok` spells, as `str::parse` reads it.
pub fn parse_i64(tok: &[u8]) -> (r: Option<i64>)
    ensures
        r is Some <==> spells_in(tok@, true, i64::MIN as int, i64::MAX as int),
        r matches Some(x) ==> decimal_value(tok@, true) == Some(x as int),
{
    match parse_parts(tok, true) {
        None => None,
        Some((neg, m)) => {
            if neg {
                if m <= 0x8000_0000_0000_0000u64 {
                    if m == 0x8000_0000_0000_0000u64 {
                        Some(i64::MIN)
                    } else {
                        Some(-(m as i64))
                    }
                } else {
                    None
                }
            } else if m <= i64::MAX as u64 {
                Some(m as i64)
            } else {
                None
            }
        },
    }
}

/// The `i32` that `tok` spells, as `str::parse` reads it.
pub fn parse_i32(tok: &[u8]) -> (r: Option<i32>)
    ensures
        r is Some <==> spells_in(tok@, true, i32::MIN as int, i32::MAX as int),
        r matches Some(x) ==> decimal_value(tok@, true) == Some(x as int),
{
    match parse_parts(tok, true) {
        None => None,
        Some((neg, m)) => {
            if neg {
                if m <= 0x8000_0000u64 {
                    Some((0 - (m as i64)) as i32)
                } else {
                    None
                }
            } else if m <= i32::MAX as u64 {
                Some(m as i32)
            } else {
                None
            }
        },
    }
}

/// The `usize` that `tok` spells, as `str::parse` reads it.
pub fn parse_usize(tok: &[u8]) -> (r: Option<usize>)
    ensures
        r is Some <==> spells_in(tok@, false, 0, usize::MAX as int),
        r matches Some(x) ==> decimal_value(tok@, false) == Some(x as int),
{
    match parse_parts(tok, false) {
        None => None,
        Some((neg, m)) => {
            if m <= usize::MAX as u64 {
                Some(m as usize)
            } else {
                None
            }
        },
    }
}

/// No token at position `i` of `p` spells an `i64`: there is none, or it
/// does not.
pub open spec fn no_i64_at(p: Seq<Seq<u8>>, i: int) -> bool {
    i >= p.len() || !spells_in(p[i], true, i64::MIN as int, i64::MAX as int)
}

/// A reader of whitespace-separated tokens. Text comes in line by line, or
/// as a whole; tokens go out in the order in which they were written.
pub struct Scanner {
    buffer: Vec<Vec<u8>>,
}

impl Scanner {
    /// The tokens that have come in and are not read yet, in order.
    pub closed spec fn pending(&self) -> Seq<Seq<u8>> {
        let b = self.buffer@;
        Seq::new(b.len(), |i: int| b[b.len() - 1 - i]@)
    }

    /// A reader with no text yet.
    pub fn new() -> (r: Self)
        ensures
            r.pending() == Seq::<Seq<u8>>::empty(),
    {
        let r = Scanner { buffer: Vec::new() };
        assert(r.pending() =~= Seq::<Seq<u8>>::empty());
        r
    }

    /// A reader of the whole text `text`, such as the contents of a file.
    pub fn from_text(text: &[u8]) -> (r: Self)
        ensures
            r.pending() == split_ws(text@),
    {
        let mut r = Scanner::new();
        r.parse_next_line(text);
        assert(r.pending() =~= split_ws(text@));
        r
    }

    /// Takes in the tokens of `line`, after those not read yet.
    pub fn parse_next_line(&mut self, line: &[u8])
        ensures
            final(self).pending() == old(self).pending() + split_ws(line@),
    {
        let mut toks = split_whitespace(line);
        let ghost t = toks@.map_values(|v: Vec<u8>| v@);
        let mut new_buf: Vec<Vec<u8>> = Vec::new();
        while toks.len() > 0
            invariant
                t == split_ws(line@),
                toks@.len() + new_buf@.len() == t.len(),
                forall|i: int| 0 <= i < toks@.len() ==> (#[trigger] toks@[i])@ == t[i],
                forall|j: int|
                    0 <= j < new_buf@.len() ==> (#[trigger] new_buf@[j])@ == t[t.len() - 1 - j],
            decreases toks@.len(),
        {
            let tok = toks.pop().unwrap();
            new_buf.push(tok);
        }
        let ghost old_pending = self.pending();
        let ghost old_buf = self.buffer@;
        new_buf.append(&mut self.buffer);
        self.buffer = new_buf;
        assert(self.pending() =~= old_pending + t) by {
            let b = self.buffer@;
            assert forall|i: int| 0 <= i < b.len() implies #[trigger] self.pending()[i] == (old_pending
                + t)[i] by {
                if i < old_buf.len() {
                    assert(b[b.len() - 1 - i] == old_buf[old_buf.len() - 1 - i]);
                }
            }
        }
    }

    /// Whether a token is waiting to be read.
    pub fn has_more_elements(&self) -> (r: bool)
        ensures
            r == (self.pending().len() > 0),
    {
        self.buffer.len() > 0
    }

    /// The next token, taken out; `None` when none is waiting.
    pub fn next(&mut self) -> (r: Option<Vec<u8>>)
        ensures
            old(self).pending().len() == 0 ==> r is None && final(self).pending() == old(
                self,
            ).pending(),
            old(self).pending().len() > 0 ==> (r matches Some(tok) && tok@ == old(self).pending()[0]
                && final(self).pending() == old(self).pending().drop_first()),
    {
        let ghost before = self.pending();
        let r = self.buffer.pop();
        assert(self.pending() =~= if before.len() > 0 {
            before.drop_first()
        } else {
            before
        });
        r
    }

    /// The next token, as bytes.
    pub fn string(&mut self) -> (r: Option<Vec<u8>>)
        ensures
            old(self).pending().len() == 0 ==> r is None && final(self).pending() == old(
                self,
            ).pending(),
            old(self).pending().len() > 0 ==> (r matches Some(tok) && tok@ == old(self).pending()[0]
                && final(self).pending() == old(self).pending().drop_first()),
    {
        self.next()
    }

    /// The next token, read as an `i64`; `None` when no token is waiting or
    /// the token does not spell an `i64`. The token is taken out either way.
    pub fn i64(&mut self) -> (r: Option<i64>)
        ensures
            old(self).pending().len() == 0 ==> r is None && final(self).pending() == old(
                self,
            ).pending(),
            old(self).pending().len() > 0 ==> {
                &&& final(self).pending() == old(self).pending().drop_first()
                &&& r is Some <==> spells_in(
                    old(self).pending()[0],
                    true,
                    i64::MIN as int,
                    i64::MAX as int,
                )
                &&& r matches Some(x) ==> decimal_value(old(self).pending()[0], true) == Some(
                    x as int,
                )
            },
    {
        match self.next() {
            None => None,
            Some(tok) => parse_i64(tok.as_slice()),
        }
    }

    /// The next token, read as an `i32`; `None` when no token is waiting or
    /// the token does not spell an `i32`. The token is taken out either way.
    pub fn i32(&mut self) -> (r: Option<i32>)
        ensures
            old(self).pending().len() == 0 ==> r is None && final(self).pending() == old(
                self,
            ).pending(),
            old(self).pending().len() > 0 ==> {
                &&& final(self).pending() == old(self).pending().drop_first()
                &&& r is Some <==> spells_in(
                    old(self).pending()[0],
                    true,
                    i32::MIN as int,
                    i32::MAX as int,
                )
                &&& r matches Some(x) ==> decimal_value(old(self).pending()[0], true) == Some(
                    x as int,
                )
            },
    {
        match self.next() {
            None => None,
            Some(tok) => parse_i32(tok.as_slice()),
        }
    }

    /// The next token, read as a `usize`; `None` when no token is waiting or
    /// the token does not spell a `usize`. The token is taken out either way.
    pub fn usize(&mut self) -> (r: Option<usize>)
        ensures
            old(self).pending().len() == 0 ==> r is None && final(self).pending() == old(
                self,
            ).pending(),
            old(self).pending().len() > 0 ==> {
                &&& final(self).pending() == old(self).pending().drop_first()
                &&& r is Some <==> spells_in(old(self).pending()[0], false, 0, usize::MAX as int)
                &&& r matches Some(x) ==> decimal_value(old(self).pending()[0], false) == Some(
                    x as int,
                )
            },
    {
        match self.next() {
            None => None,
            Some(tok) => parse_usize(tok.as_slice()),
        }
    }

    /// The next `n` tokens, read as `i64`s; `None` when fewer than `n` are
    /// waiting or one of them does not spell an `i64`. Reading stops at the
    /// first token that fails.
    pub fn vec(&mut self, n: usize) -> (r: Option<Vec<i64>>)
        ensures
            r matches Some(v) ==> {
                &&& v@.len() == n
                &&& n <= old(self).pending().len()
                &&& final(self).pending() == old(self).pending().skip(n as int)
                &&& forall|i: int|
                    0 <= i < n ==> decimal_value(old(self).pending()[i], true) == Some(
                        (#[trigger] v@[i]) as int,
                    )
            },
            r is None ==> exists|i: int| 0 <= i < n && #[trigger] no_i64_at(old(self).pending(), i),
    {
        let ghost before = self.pending();
        let mut res: Vec<i64> = Vec::new();
        for i in 0..n
            invariant
                before == old(self).pending(),
                res@.len() == i,
                i <= before.len(),
                self.pending() == before.skip(i as int),
                forall|j: int|
                    0 <= j < i ==> decimal_value(before[j], true) == Some((#[trigger] res@[j]) as int),
        {
            match self.i64() {
                None => {
                    assert(no_i64_at(before, i as int));
                    return None;
                },
                Some(x) => {
                    assert(before.skip(i as int).drop_first() =~= before.skip(i + 1));
                    res.push(x);
                },
            }
        }
        Some(res)
    }
}

/// Text read line by line gives the same tokens as the lines read as one
/// text with whitespace between them: the tokens of `a`, a whitespace byte
/// and `b` are those of `a` followed by those of `b`.
pub proof fn law_split_at_space(a: Seq<u8>, sp: u8, b: Seq<u8>)
    requires
        is_space(sp),
    ensures
        split_ws(a + seq![sp] + b) == split_ws(a) + split_ws(b),
    decreases b.len(),
{
    let s = a + seq![sp] + b;
    if b.len() == 0 {
        assert(s.drop_last() =~= a);
        assert(split_ws(a) + split_ws(b) =~= split_ws(a));
    } else {
        assert(s.drop_last() =~= a + seq![sp] + b.drop_last());
        law_split_at_space(a, sp, b.drop_last());
        let c = b.last();
        if !is_space(c) {
            if b.len() >= 2 {
                assert(s[s.len() - 2] == b[b.len() - 2]);
                if !is_space(b[b.len() - 2]) {
                    lemma_split_last(b.drop_last());
                }
            } else {
                assert(s[s.len() - 2] == sp);
            }
        }
        assert(split_ws(s) =~= split_ws(a) + split_ws(b));
    }
}

/// The value that the token `s` spells, where it spells one.
pub open spec fn value_of(s: Seq<u8>, signed: bool) -> int {
    decimal_value(s, signed)->0
}

/// The tokens `p` start with a list of points: a count `n`, then `n` pairs
/// of coordinates, each an `i32`.
pub open spec fn points_readable(p: Seq<Seq<u8>>) -> bool {
    &&& p.len() >= 1
    &&& spells_in(p[0], false, 0, usize::MAX as int)
    &&& p.len() >= 1 + 2 * value_of(p[0], false)
    &&& forall|i: int|
        1 <= i <= 2 * value_of(p[0], false) ==> spells_in(
            #[trigger] p[i],
            true,
            i32::MIN as int,
            i32::MAX as int,
        )
}

impl Scanner {
    /// Reads a list of points: their number, then the two coordinates of each.
    /// `None` when the tokens waiting do not start with such a list.
    pub fn points(&mut self) -> (r: Option<Vec<Point>>)
        ensures
            r is Some <==> points_readable(old(self).pending()),
            r matches Some(vs) ==> {
                let p = old(self).pending();
                let n = value_of(p[0], false);
                &&& vs@.len() == n
                &&& forall|i: int|
                    0 <= i < n ==> (#[trigger] vs@[i]).x == value_of(p[1 + 2 * i], true) && vs@[i].y
                        == value_of(p[2 + 2 * i], true)
                &&& final(self).pending() == p.skip(1 + 2 * n)
            },
    {
        let ghost p = self.pending();
        let n = match self.usize() {
            None => {
                return None;
            },
            Some(n) => n,
        };
        let mut res: Vec<Point> = Vec::new();
        for i in 0..n
            invariant
                p == old(self).pending(),
                p.len() >= 1,
                spells_in(p[0], false, 0, usize::MAX as int),
                n == value_of(p[0], false),
                res@.len() == i,
                p.len() >= 1 + 2 * i,
                self.pending() == p.skip(1 + 2 * i),
                forall|k: int| 1 <= k <= 2 * i ==> spells_in(#[trigger] p[k], true, i32::MIN as int, i32::MAX as int),
                forall|k: int|
                    0 <= k < i ==> (#[trigger] res@[k]).x == value_of(p[1 + 2 * k], true) && res@[k].y
                        == value_of(p[2 + 2 * k], true),
        {
            let x = self.i32();
            match x {
                None => {
                    proof {
                        if p.len() >= 1 + 2 * n {
                            assert(p.skip(1 + 2 * i)[0] == p[1 + 2 * i]);
                            assert(!spells_in(p[1 + 2 * i], true, i32::MIN as int, i32::MAX as int));
                        }
                    }
                    return None;
                },
                Some(x) => {
                    assert(p.skip(1 + 2 * i)[0] == p[1 + 2 * i]);
                    assert(p.skip(1 + 2 * i).drop_first() =~= p.skip(2 + 2 * i));
                    let y = self.i32();
                    match y {
                        None => {
                            proof {
                                if p.len() >= 1 + 2 * n {
                                    assert(p.skip(2 + 2 * i)[0] == p[2 + 2 * i]);
                                    assert(!spells_in(p[2 + 2 * i], true, i32::MIN as int, i32::MAX as int));
                                }
                            }
                            return None;
                        },
                        Some(y) => {
                            assert(p.skip(2 + 2 * i)[0] == p[2 + 2 * i]);
                            assert(p.skip(2 + 2 * i).drop_first() =~= p.skip(3 + 2 * i));
                            res.push(Point { x, y });
                        },
                    }
                },
            }
        }
        Some(res)
    }
}

} // verus!
