//! A forward-only scanner over the bytes of a trace.
//!
//! Every operation that consumes input also steps over the inline blanks
//! (space, tab, carriage return) that follow it; a line break is never
//! skipped on its own.
use vstd::prelude::*;

verus! {

/// What went wrong while reading a trace, with the byte offset where it did.
#[derive(Debug, Clone, Copy, PartialEq, Eq, Structural)]
pub enum ParseError {
    /// An expected literal was absent.
    UnexpectedToken { at: usize },
    /// An identifier was required but none was present.
    ExpectedIdentifier { at: usize },
    /// The input ended inside a bracketed group.
    UnbalancedDelimiter { at: usize },
    /// A decimal field was empty or did not fit in `usize`.
    MalformedInteger { at: usize },
}

/// The classes of bytes that a run can be made of.
#[derive(Debug, Clone, Copy, PartialEq, Eq, Structural)]
pub enum ByteClass {
    Digit,
    Ident,
    /// Any byte but the given one.
    Not(u8),
}

pub open spec fn is_blank(b: u8) -> bool {
    b == 32u8 || b == 9u8 || b == 13u8
}

pub open spec fn is_digit(b: u8) -> bool {
    48u8 <= b && b <= 57u8
}

pub open spec fn is_ident_byte(b: u8) -> bool {
    is_digit(b) || (65u8 <= b && b <= 90u8) || (97u8 <= b && b <= 122u8) || b == 95u8
}

pub open spec fn in_class(c: ByteClass, b: u8) -> bool {
    match c {
        ByteClass::Digit => is_digit(b),
        ByteClass::Ident => is_ident_byte(b),
        ByteClass::Not(x) => b != x,
    }
}

/// The end of the maximal run of bytes of class `c` that starts at `p`.
pub open spec fn run_end(s: Seq<u8>, p: int, c: ByteClass) -> int
    decreases s.len() - p,
{
    if 0 <= p < s.len() && in_class(c, s[p]) {
        run_end(s, p + 1, c)
    } else {
        p
    }
}

/// The first position at or after `p` that does not hold a blank.
pub open spec fn past_blanks(s: Seq<u8>, p: int) -> int
    decreases s.len() - p,
{
    if 0 <= p < s.len() && is_blank(s[p]) {
        past_blanks(s, p + 1)
    } else {
        p
    }
}

/// Whether `lit` occurs in `s` at `p`.
pub open spec fn occurs_at(s: Seq<u8>, p: int, lit: Seq<u8>) -> bool {
    0 <= p && p + lit.len() <= s.len() && s.subrange(p, p + lit.len()) == lit
}

/// The byte that closes a group opened by `open`.
pub open spec fn closer_of(open: u8) -> u8 {
    if open == 60u8 {
        62u8
    } else if open == 123u8 {
        125u8
    } else if open == 40u8 {
        41u8
    } else if open == 91u8 {
        93u8
    } else {
        open
    }
}

/// Where the group that is open `d` levels deep at `i` closes (one past the
/// closer), counting only `open` and its own closer; `-1` if the input ends first.
pub open spec fn group_end(s: Seq<u8>, i: int, open: u8, d: nat) -> int
    decreases s.len() - i,
{
    if i < 0 || i >= s.len() {
        -1
    } else if s[i] == open && open != closer_of(open) {
        group_end(s, i + 1, open, d + 1)
    } else if s[i] == closer_of(open) {
        if d <= 1 {
            i + 1
        } else {
            group_end(s, i + 1, open, (d - 1) as nat)
        }
    } else {
        group_end(s, i + 1, open, d)
    }
}

pub proof fn lemma_run_end_bounds(s: Seq<u8>, p: int, c: ByteClass)
    requires
        0 <= p <= s.len(),
    ensures
        p <= run_end(s, p, c) <= s.len(),
        forall|k: int| p <= k < run_end(s, p, c) ==> in_class(c, #[trigger] s[k]),
        run_end(s, p, c) < s.len() ==> !in_class(c, s[run_end(s, p, c)]),
    decreases s.len() - p,
{
    if p < s.len() && in_class(c, s[p]) {
        lemma_run_end_bounds(s, p + 1, c);
    }
}

pub proof fn lemma_past_blanks_bounds(s: Seq<u8>, p: int)
    requires
        0 <= p <= s.len(),
    ensures
        p <= past_blanks(s, p) <= s.len(),
    decreases s.len() - p,
{
    if p < s.len() && is_blank(s[p]) {
        lemma_past_blanks_bounds(s, p + 1);
    }
}

pub proof fn lemma_past_blanks_ge(s: Seq<u8>, p: int)
    ensures
        past_blanks(s, p) >= p,
    decreases s.len() - p,
{
    if 0 <= p < s.len() && is_blank(s[p]) {
        lemma_past_blanks_ge(s, p + 1);
    }
}

pub proof fn lemma_run_end_ge(s: Seq<u8>, p: int, c: ByteClass)
    ensures
        run_end(s, p, c) >= p,
    decreases s.len() - p,
{
    if 0 <= p < s.len() && in_class(c, s[p]) {
        lemma_run_end_ge(s, p + 1, c);
    }
}

pub proof fn lemma_group_end_bounds(s: Seq<u8>, i: int, open: u8, d: nat)
    requires
        0 <= i,
    ensures
        group_end(s, i, open, d) == -1 || i < group_end(s, i, open, d) <= s.len(),
    decreases s.len() - i,
{
    if 0 <= i < s.len() {
        lemma_group_end_bounds(s, i + 1, open, d + 1);
        if d > 1 {
            lemma_group_end_bounds(s, i + 1, open, (d - 1) as nat);
        }
        lemma_group_end_bounds(s, i + 1, open, d);
    }
}

pub fn class_holds(c: ByteClass, b: u8) -> (r: bool)
    ensures
        r == in_class(c, b),
{
    match c {
        ByteClass::Digit => 48u8 <= b && b <= 57u8,
        ByteClass::Ident => (48u8 <= b && b <= 57u8) || (65u8 <= b && b <= 90u8) || (97u8 <= b
            && b <= 122u8) || b == 95u8,
        ByteClass::Not(x) => b != x,
    }
}

/// A read position over an owned byte buffer.
pub struct Cursor {
    src: Vec<u8>,
    pos: usize,
}

impl Cursor {
    pub closed spec fn source(&self) -> Seq<u8> {
        self.src@
    }

    pub closed spec fn position(&self) -> int {
        self.pos as int
    }

    pub open spec fn wf(&self) -> bool {
        0 <= self.position() <= self.source().len()
    }

    pub fn new(src: Vec<u8>) -> (r: Cursor)
        ensures
            r.source() == src@,
            r.position() == 0,
            r.wf(),
    {
        Cursor { src, pos: 0 }
    }

    pub fn offset(&self) -> (r: usize)
        ensures
            r == self.position(),
    {
        self.pos
    }

    pub fn finished(&self) -> (r: bool)
        requires
            self.wf(),
        ensures
            r == (self.position() == self.source().len()),
    {
        self.pos == self.src.len()
    }

    /// Steps over inline blanks.
    pub fn skip_whitespace(&mut self)
        requires
            old(self).wf(),
        ensures
            final(self).source() == old(self).source(),
            final(self).position() == past_blanks(old(self).source(), old(self).position()),
            final(self).wf(),
    {
        proof {
            lemma_past_blanks_bounds(self.src@, self.pos as int);
        }
        while self.pos < self.src.len() && (self.src[self.pos] == 32u8 || self.src[self.pos]
            == 9u8 || self.src[self.pos] == 13u8)
            invariant
                self.src@ == old(self).src@,
                old(self).pos <= self.pos <= self.src.len(),
                past_blanks(self.src@, self.pos as int) == past_blanks(
                    old(self).src@,
                    old(self).pos as int,
                ),
            decreases self.src.len() - self.pos,
        {
            self.pos = self.pos + 1;
        }
    }

    /// Copies out the next `n` bytes and moves past them and the blanks after them.
    fn advance(&mut self, n: usize) -> (r: Vec<u8>)
        requires
            old(self).wf(),
            old(self).position() + n <= old(self).source().len(),
        ensures
            r@ == old(self).source().subrange(
                old(self).position(),
                old(self).position() + n,
            ),
            final(self).source() == old(self).source(),
            final(self).position() == past_blanks(
                old(self).source(),
                old(self).position() + n,
            ),
            final(self).wf(),
    {
        let start = self.pos;
        let mut r: Vec<u8> = Vec::new();
        let mut i: usize = start;
        while i < start + n
            invariant
                self.wf(),
                self.pos == start,
                start <= i <= start + n,
                start + n <= self.src.len(),
                r@ == self.src@.subrange(start as int, i as int),
            decreases start + n - i,
        {
            r.push(self.src[i]);
            i = i + 1;
            assert(r@ =~= self.src@.subrange(start as int, i as int));
        }
        self.pos = start + n;
        self.skip_whitespace();
        r
    }

    /// The end of the run of class `c` that starts at the current position.
    fn scan(&self, c: ByteClass) -> (r: usize)
        requires
            self.wf(),
        ensures
            r == run_end(self.source(), self.position(), c),
            self.position() <= r <= self.source().len(),
    {
        proof {
            lemma_run_end_bounds(self.src@, self.pos as int, c);
        }
        let mut i: usize = self.pos;
        while i < self.src.len() && class_holds(c, self.src[i])
            invariant
                self.pos <= i <= self.src.len(),
                run_end(self.src@, i as int, c) == run_end(self.src@, self.pos as int, c),
            decreases self.src.len() - i,
        {
            i = i + 1;
        }
        i
    }

    /// Consumes the maximal run of bytes of class `c`, which may be empty.
    pub fn skip_matching(&mut self, c: ByteClass) -> (r: Vec<u8>)
        requires
            old(self).wf(),
        ensures
            ({
                let s = old(self).source();
                let p = old(self).position();
                &&& r@ == s.subrange(p, run_end(s, p, c))
                &&& final(self).source() == s
                &&& final(self).position() == past_blanks(s, run_end(s, p, c))
                &&& final(self).wf()
            }),
    {
        let end = self.scan(c);
        self.advance(end - self.pos)
    }

    /// Whether `lit` occurs at the current position; nothing is consumed.
    pub fn check(&self, lit: &[u8]) -> (r: bool)
        requires
            self.wf(),
        ensures
            r == occurs_at(self.source(), self.position(), lit@),
    {
        if lit.len() > self.src.len() - self.pos {
            return false;
        }
        let mut i: usize = 0;
        while i < lit.len()
            invariant
                self.wf(),
                self.pos + lit@.len() <= self.src@.len(),
                self.src@.len() <= usize::MAX,
                0 <= i <= lit@.len(),
                forall|k: int| 0 <= k < i ==> self.src@[self.pos + k] == lit@[k],
            decreases lit.len() - i,
        {
            if self.src[self.pos + i] != lit[i] {
                assert(self.src@.subrange(self.pos as int, self.pos + lit@.len())[i as int]
                    != lit@[i as int]);
                return false;
            }
            i = i + 1;
        }
        assert(self.src@.subrange(self.pos as int, self.pos + lit@.len()) =~= lit@);
        true
    }

    /// Consumes `lit` if it occurs here; otherwise nothing moves.
    pub fn skip(&mut self, lit: &[u8]) -> (r: Option<Vec<u8>>)
        requires
            old(self).wf(),
        ensures
            ({
                let s = old(self).source();
                let p = old(self).position();
                &&& final(self).source() == s
                &&& final(self).wf()
                &&& if occurs_at(s, p, lit@) {
                    &&& r.is_some() && r.unwrap()@ == lit@
                    &&& final(self).position() == past_blanks(s, p + lit@.len())
                } else {
                    &&& r.is_none()
                    &&& final(self).position() == p
                }
            }),
    {
        if self.check(lit) {
            Some(self.advance(lit.len()))
        } else {
            None
        }
    }

    /// Consumes `lit`, which must occur here.
    pub fn expect(&mut self, lit: &[u8]) -> (r: Result<Vec<u8>, ParseError>)
        requires
            old(self).wf(),
        ensures
            ({
                let s = old(self).source();
                let p = old(self).position();
                &&& final(self).source() == s
                &&& final(self).wf()
                &&& if occurs_at(s, p, lit@) {
                    &&& r.is_ok() && r.unwrap()@ == lit@
                    &&& final(self).position() == past_blanks(s, p + lit@.len())
                } else {
                    &&& r == Err::<Vec<u8>, ParseError>(ParseError::UnexpectedToken { at: p as usize })
                    &&& final(self).position() == p
                }
            }),
    {
        match self.skip(lit) {
            Some(b) => Ok(b),
            None => Err(ParseError::UnexpectedToken { at: self.pos }),
        }
    }
    /// Consumes a non-empty run of identifier bytes.
    pub fn expect_ident(&mut self) -> (r: Result<Vec<u8>, ParseError>)
        requires
            old(self).wf(),
        ensures
            ({
                let s = old(self).source();
                let p = old(self).position();
                let e = run_end(s, p, ByteClass::Ident);
                &&& final(self).source() == s
                &&& final(self).wf()
                &&& if e > p {
                    &&& r.is_ok() && r.unwrap()@ == s.subrange(p, e)
                    &&& final(self).position() == past_blanks(s, e)
                } else {
                    &&& r == Err::<Vec<u8>, ParseError>(
                        ParseError::ExpectedIdentifier { at: p as usize },
                    )
                    &&& final(self).position() == p
                }
            }),
    {
        let end = self.scan(ByteClass::Ident);
        if end == self.pos {
            Err(ParseError::ExpectedIdentifier { at: self.pos })
        } else {
            Ok(self.advance(end - self.pos))
        }
    }

    /// Consumes a bracketed group that starts here with `open`, through the
    /// closer that balances it; groups of the same kind nest.
    pub fn skip_around(&mut self, open: u8) -> (r: Result<Vec<u8>, ParseError>)
        requires
            old(self).wf(),
        ensures
            ({
                let s = old(self).source();
                let p = old(self).position();
                let e = group_end(s, p, open, 0);
                &&& final(self).source() == s
                &&& final(self).wf()
                &&& if !(p < s.len() && s[p] == open) {
                    &&& r == Err::<Vec<u8>, ParseError>(ParseError::UnexpectedToken { at: p as usize })
                    &&& final(self).position() == p
                } else if e == -1 {
                    &&& r == Err::<Vec<u8>, ParseError>(
                        ParseError::UnbalancedDelimiter { at: s.len() as usize },
                    )
                    &&& final(self).position() == p
                } else {
                    &&& r.is_ok() && r.unwrap()@ == s.subrange(p, e)
                    &&& final(self).position() == past_blanks(s, e)
                }
            }),
    {
        if self.pos >= self.src.len() || self.src[self.pos] != open {
            return Err(ParseError::UnexpectedToken { at: self.pos });
        }
        let close = closer(open);
        let mut i: usize = self.pos;
        let mut d: usize = 0;
        proof {
            lemma_group_end_bounds(self.src@, self.pos as int, open, 0);
        }
        while i < self.src.len()
            invariant
                self.wf(),
                self.src@ == old(self).src@,
                self.pos == old(self).pos,
                self.pos < self.src@.len(),
                self.src@[self.pos as int] == open,
                self.pos <= i <= self.src.len(),
                d <= i - self.pos,
                close == closer_of(open),
                group_end(self.src@, i as int, open, d as nat) == group_end(
                    self.src@,
                    self.pos as int,
                    open,
                    0,
                ),
            decreases self.src.len() - i,
        {
            let b = self.src[i];
            if b == open && open != close {
                d = d + 1;
            } else if b == close {
                if d <= 1 {
                    assert(group_end(self.src@, i as int, open, d as nat) == i + 1);
                    let n = i + 1 - self.pos;
                    assert(self.pos + n == i + 1);
                    let v = self.advance(n);
                    return Ok(v);
                }
                d = d - 1;
            }
            i = i + 1;
        }
        assert(group_end(self.src@, i as int, open, d as nat) == -1);
        Err(ParseError::UnbalancedDelimiter { at: self.src.len() })
    }

    /// Consumes a run of decimal digits and reads it as a number; where there
    /// is none, or it does not fit in `usize`, nothing moves.
    pub fn parse_int(&mut self) -> (r: Result<usize, ParseError>)
        requires
            old(self).wf(),
        ensures
            ({
                let s = old(self).source();
                let p = old(self).position();
                let e = run_end(s, p, ByteClass::Digit);
                let v = digits_value(s.subrange(p, e));
                &&& final(self).source() == s
                &&& final(self).wf()
                &&& if e > p && v <= usize::MAX {
                    &&& r == Ok::<usize, ParseError>(v as usize)
                    &&& final(self).position() == past_blanks(s, e)
                } else {
                    &&& r == Err::<usize, ParseError>(ParseError::MalformedInteger { at: p as usize })
                    &&& final(self).position() == p
                }
            }),
    {
        let start = self.pos;
        proof {
            lemma_run_end_bounds(self.src@, self.pos as int, ByteClass::Digit);
        }
        let digits = self.skip_matching(ByteClass::Digit);
        assert forall|k: int| 0 <= k < digits@.len() implies is_digit(#[trigger] digits@[k]) by {
            assert(digits@[k] == old(self).src@[start + k]);
        }
        if digits.len() == 0 {
            self.pos = start;
            return Err(ParseError::MalformedInteger { at: start });
        }
        match decimal_value(&digits) {
            Some(v) => Ok(v),
            None => {
                self.pos = start;
                Err(ParseError::MalformedInteger { at: start })
            },
        }
    }
}

pub fn closer(open: u8) -> (r: u8)
    ensures
        r == closer_of(open),
{
    if open == 60u8 {
        62u8
    } else if open == 123u8 {
        125u8
    } else if open == 40u8 {
        41u8
    } else if open == 91u8 {
        93u8
    } else {
        open
    }
}

/// The number that a string of decimal digits spells.
pub open spec fn digits_value(s: Seq<u8>) -> nat
    decreases s.len(),
{
    if s.len() == 0 {
        0
    } else {
        digits_value(s.drop_last()) * 10 + (s.last() - 48) as nat
    }
}

pub proof fn lemma_digits_value_grows(s: Seq<u8>, i: int)
    requires
        0 <= i <= s.len(),
        forall|k: int| 0 <= k < s.len() ==> is_digit(#[trigger] s[k]),
    ensures
        digits_value(s.subrange(0, i)) <= digits_value(s),
    decreases s.len() - i,
{
    if i < s.len() {
        lemma_digits_value_grows(s, i + 1);
        assert(s.subrange(0, i + 1).drop_last() =~= s.subrange(0, i));
    } else {
        assert(s.subrange(0, i) =~= s);
    }
}

/// Reads digits as a number, or `None` where it does not fit in `usize`.
pub fn decimal_value(digits: &Vec<u8>) -> (r: Option<usize>)
    requires
        forall|k: int| 0 <= k < digits@.len() ==> is_digit(#[trigger] digits@[k]),
    ensures
        match r {
            Some(v) => v == digits_value(digits@),
            None => digits_value(digits@) > usize::MAX,
        },
{
    let mut v: usize = 0;
    let mut i: usize = 0;
    while i < digits.len()
        invariant
            0 <= i <= digits@.len(),
            v == digits_value(digits@.subrange(0, i as int)),
            forall|k: int| 0 <= k < digits@.len() ==> is_digit(#[trigger] digits@[k]),
        decreases digits.len() - i,
    {
        let d = (digits[i] - 48u8) as usize;
        assert(digits@.subrange(0, i + 1).drop_last() =~= digits@.subrange(0, i as int));
        if v > (usize::MAX - d) / 10 {
            proof {
                lemma_digits_value_grows(digits@, i + 1);
            }
            return None;
        }
        v = v * 10 + d;
        i = i + 1;
    }
    assert(digits@.subrange(0, i as int) =~= digits@);
    Some(v)
}

} // verus!
