//! Frame records: `N: path` on one line, then `at file:line:col` on the next.
use vstd::prelude::*;
use crate::cursor::{
    digits_value, lemma_past_blanks_ge, lemma_run_end_bounds, lemma_run_end_ge, occurs_at,
    past_blanks, run_end, ByteClass, Cursor, ParseError,
};
use crate::path::{lemma_path_advances, parse_path, read_path, CallPath};

verus! {

/// Where in the sources a frame stands.
pub struct Location {
    pub file: Vec<u8>,
    pub line: usize,
    pub column: usize,
}

/// One parsed frame; `location` is absent for the marker frame that ends a trace.
pub struct Frame {
    pub index: usize,
    pub path: CallPath,
    pub location: Option<Location>,
}

/// What a frame record holds: its index, its path segments, and its file,
/// line and column if it has them.
pub struct FrameSpec {
    pub index: nat,
    pub segs: Seq<Seq<u8>>,
    pub location: Option<(Seq<u8>, nat, nat)>,
}

impl Frame {
    pub open spec fn matches(&self, f: FrameSpec) -> bool {
        &&& self.index == f.index
        &&& self.path.classifies(f.segs)
        &&& match (self.location, f.location) {
            (Some(l), Some((file, line, col))) => l.file@ == file && l.line == line && l.column
                == col,
            (None, None) => true,
            _ => false,
        }
    }
}

pub open spec fn colon() -> Seq<u8> {
    seq![58u8]
}

pub open spec fn at_word() -> Seq<u8> {
    seq![97u8, 116u8]
}

/// A decimal number read at `p`, with the position after it.
pub open spec fn read_int(s: Seq<u8>, p: int) -> Result<(nat, int), ParseError> {
    let e = run_end(s, p, ByteClass::Digit);
    let v = digits_value(s.subrange(p, e));
    if e > p && v <= usize::MAX {
        Ok((v, past_blanks(s, e)))
    } else {
        Err(ParseError::MalformedInteger { at: p as usize })
    }
}

/// The literal `lit` read at `p`, with the position after it.
pub open spec fn read_lit(s: Seq<u8>, p: int, lit: Seq<u8>) -> Result<int, ParseError> {
    if occurs_at(s, p, lit) {
        Ok(past_blanks(s, p + lit.len()))
    } else {
        Err(ParseError::UnexpectedToken { at: p as usize })
    }
}

/// `at file:line:col` read at `p`, up to the line break that ends it.
pub open spec fn read_location(s: Seq<u8>, p: int) -> Result<((Seq<u8>, nat, nat), int), ParseError> {
    match read_lit(s, p, at_word()) {
        Err(e) => Err(e),
        Ok(q) => {
            let fe = run_end(s, q, ByteClass::Not(58u8));
            let file = s.subrange(q, fe);
            match read_lit(s, past_blanks(s, fe), colon()) {
                Err(e) => Err(e),
                Ok(q1) => match read_int(s, q1) {
                    Err(e) => Err(e),
                    Ok((line, q2)) => match read_lit(s, q2, colon()) {
                        Err(e) => Err(e),
                        Ok(q3) => match read_int(s, q3) {
                            Err(e) => Err(e),
                            Ok((col, q4)) => Ok(((file, line, col), q4)),
                        },
                    },
                },
            }
        },
    }
}

/// A frame record read at `p`, up to the line break after its location.
/// Where the input ends right after the path, the frame has no location.
pub open spec fn read_frame(s: Seq<u8>, p: int) -> Result<(FrameSpec, int), ParseError> {
    match read_int(s, p) {
        Err(e) => Err(e),
        Ok((index, q)) => match read_lit(s, q, colon()) {
            Err(e) => Err(e),
            Ok(q1) => match read_path(s, q1) {
                Err(e) => Err(e),
                Ok((segs, q2)) => if q2 == s.len() {
                    Ok((FrameSpec { index, segs, location: None }, q2))
                } else {
                    match read_location(s, q2) {
                        Err(e) => Err(e),
                        Ok((loc, q3)) => Ok((FrameSpec { index, segs, location: Some(loc) }, q3)),
                    }
                },
            },
        },
    }
}

/// A frame record that reads consumes at least one byte.
pub proof fn lemma_frame_advances(s: Seq<u8>, p: int)
    ensures
        read_frame(s, p) is Ok ==> read_frame(s, p).unwrap().1 > p,
{
    let e = run_end(s, p, ByteClass::Digit);
    lemma_past_blanks_ge(s, e);
    match read_int(s, p) {
        Ok((index, q)) => {
            lemma_past_blanks_ge(s, q + 1);
            match read_lit(s, q, colon()) {
                Ok(q1) => {
                    lemma_path_advances(s, q1);
                    match read_path(s, q1) {
                        Ok((segs, q2)) => lemma_location_advances(s, q2),
                        Err(_) => {},
                    }
                },
                Err(_) => {},
            }
        },
        Err(_) => {},
    }
}

pub proof fn lemma_location_advances(s: Seq<u8>, p: int)
    ensures
        read_location(s, p) is Ok ==> read_location(s, p).unwrap().1 >= p,
{
    lemma_past_blanks_ge(s, p + 2);
    match read_lit(s, p, at_word()) {
        Ok(q) => {
            let fe = run_end(s, q, ByteClass::Not(58u8));
            lemma_run_end_ge(s, q, ByteClass::Not(58u8));
            lemma_past_blanks_ge(s, fe);
            lemma_past_blanks_ge(s, past_blanks(s, fe) + 1);
            match read_lit(s, past_blanks(s, fe), colon()) {
                Ok(q1) => {
                    let e1 = run_end(s, q1, ByteClass::Digit);
                    lemma_run_end_ge(s, q1, ByteClass::Digit);
                    lemma_past_blanks_ge(s, e1);
                    match read_int(s, q1) {
                        Ok((line, q2)) => {
                            lemma_past_blanks_ge(s, q2 + 1);
                            match read_lit(s, q2, colon()) {
                                Ok(q3) => {
                                    let e3 = run_end(s, q3, ByteClass::Digit);
                                    lemma_run_end_ge(s, q3, ByteClass::Digit);
                                    lemma_past_blanks_ge(s, e3);
                                },
                                Err(_) => {},
                            }
                        },
                        Err(_) => {},
                    }
                },
                Err(_) => {},
            }
        },
        Err(_) => {},
    }
}

fn expect_lit(cur: &mut Cursor, lit: &[u8]) -> (r: Result<(), ParseError>)
    requires
        old(cur).wf(),
    ensures
        final(cur).wf(),
        final(cur).source() == old(cur).source(),
        match read_lit(old(cur).source(), old(cur).position(), lit@) {
            Ok(q) => r.is_ok() && final(cur).position() == q,
            Err(e) => r == Err::<(), ParseError>(e),
        },
{
    match cur.expect(lit) {
        Ok(_) => Ok(()),
        Err(e) => Err(e),
    }
}

fn read_number(cur: &mut Cursor) -> (r: Result<usize, ParseError>)
    requires
        old(cur).wf(),
    ensures
        final(cur).wf(),
        final(cur).source() == old(cur).source(),
        match read_int(old(cur).source(), old(cur).position()) {
            Ok((v, q)) => r == Ok::<usize, ParseError>(v as usize) && final(cur).position() == q,
            Err(e) => r == Err::<usize, ParseError>(e),
        },
{
    proof {
        lemma_run_end_bounds(old(cur).source(), old(cur).position(), ByteClass::Digit);
    }
    cur.parse_int()
}

/// Reads one frame record, up to the line break after its location, which
/// is left for the caller.
pub fn parse_frame(cur: &mut Cursor) -> (r: Result<Frame, ParseError>)
    requires
        old(cur).wf(),
    ensures
        final(cur).wf(),
        final(cur).source() == old(cur).source(),
        match read_frame(old(cur).source(), old(cur).position()) {
            Ok((f, q)) => r.is_ok() && r.unwrap().matches(f) && final(cur).position() == q,
            Err(e) => r == Err::<Frame, ParseError>(e),
        },
{
    let index = match read_number(cur) {
        Ok(v) => v,
        Err(e) => return Err(e),
    };
    let c: [u8; 1] = [58u8];
    assert(c@ =~= colon());
    if let Err(e) = expect_lit(cur, &c) {
        return Err(e);
    }
    let path = match parse_path(cur) {
        Ok(v) => v,
        Err(e) => return Err(e),
    };
    if cur.finished() {
        return Ok(Frame { index, path, location: None });
    }
    let at: [u8; 2] = [97u8, 116u8];
    assert(at@ =~= at_word());
    if let Err(e) = expect_lit(cur, &at) {
        return Err(e);
    }
    let file = cur.skip_matching(ByteClass::Not(58u8));
    if let Err(e) = expect_lit(cur, &c) {
        return Err(e);
    }
    let line = match read_number(cur) {
        Ok(v) => v,
        Err(e) => return Err(e),
    };
    if let Err(e) = expect_lit(cur, &c) {
        return Err(e);
    }
    let column = match read_number(cur) {
        Ok(v) => v,
        Err(e) => return Err(e),
    };
    Ok(Frame { index, path, location: Some(Location { file, line, column }) })
}

} // verus!
