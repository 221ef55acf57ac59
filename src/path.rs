//! Symbol paths: reading `a::B<T>::{{closure}}` into segments, and telling
//! the origin module, the enclosing scope and the leaf apart.
use vstd::prelude::*;
use crate::cursor::{
    group_end, lemma_group_end_bounds, lemma_past_blanks_bounds, lemma_past_blanks_ge,
    lemma_run_end_bounds, lemma_run_end_ge, occurs_at, past_blanks, run_end, ByteClass, Cursor,
    ParseError,
};

verus! {

pub open spec fn closure_marker() -> Seq<u8> {
    seq![123u8, 123u8, 99u8, 108u8, 111u8, 115u8, 117u8, 114u8, 101u8, 125u8, 125u8]
}

pub open spec fn path_sep() -> Seq<u8> {
    seq![58u8, 58u8]
}

pub open spec fn newline() -> Seq<u8> {
    seq![10u8]
}

/// The separator shown after the origin when a scope or leaf follows.
pub open spec fn origin_sep() -> Seq<u8> {
    seq![32u8, 58u8, 58u8, 32u8]
}

/// Whether the first character of the text `s` spells is upper case.
pub uninterp spec fn starts_upper(s: Seq<u8>) -> bool;

/// Relies on `char::is_uppercase`, applied to the first character of the
/// segment read as UTF-8 (with invalid sequences replaced). An empty segment
/// has no such character; an ASCII first character is upper case exactly
/// when it is one of `A` to `Z`.
#[verifier::external_body]
fn first_is_uppercase(seg: &Vec<u8>) -> (r: bool)
    ensures
        r == starts_upper(seg@),
        seg@.len() == 0 ==> !r,
        seg@.len() > 0 && seg@[0] < 128u8 ==> (r <==> (65u8 <= seg@[0] && seg@[0] <= 90u8)),
{
    String::from_utf8_lossy(seg).chars().next().map_or(false, char::is_uppercase)
}

/// A name that the compiler made up: a closure marker, or an impl block in angle brackets.
pub open spec fn is_synthetic(s: Seq<u8>) -> bool {
    s.len() > 0 && (s[0] == 123u8 || s[0] == 60u8)
}

pub open spec fn leaf_of(segs: Seq<Seq<u8>>) -> Option<Seq<u8>> {
    if segs.len() > 1 {
        Some(segs.last())
    } else {
        None
    }
}

pub open spec fn scope_of(segs: Seq<Seq<u8>>) -> Option<Seq<u8>> {
    if segs.len() > 2 && (starts_upper(segs[segs.len() - 2]) || is_synthetic(segs.last())) {
        Some(segs[segs.len() - 2])
    } else {
        None
    }
}

pub open spec fn views(v: Seq<Vec<u8>>) -> Seq<Seq<u8>> {
    v.map_values(|x: Vec<u8>| x@)
}

pub open spec fn opt_view(o: Option<Vec<u8>>) -> Option<Seq<u8>> {
    match o {
        Some(v) => Some(v@),
        None => None,
    }
}

/// If a group opened by `open` starts at `q`, appends it to `acc`.
pub open spec fn with_group(s: Seq<u8>, acc: Seq<u8>, q: int, open: u8) -> Result<
    (Seq<u8>, int),
    ParseError,
> {
    if 0 <= q < s.len() && s[q] == open {
        let g = group_end(s, q, open, 0);
        if g == -1 {
            Err(ParseError::UnbalancedDelimiter { at: s.len() as usize })
        } else {
            Ok((acc + s.subrange(q, g), past_blanks(s, g)))
        }
    } else {
        Ok((acc, q))
    }
}

/// One segment read at `p`, with the position after it.
pub open spec fn read_segment(s: Seq<u8>, p: int) -> Result<(Seq<u8>, int), ParseError> {
    if occurs_at(s, p, closure_marker()) {
        Ok((closure_marker(), past_blanks(s, p + 11)))
    } else if 0 <= p < s.len() && s[p] == 60u8 {
        with_group(s, Seq::empty(), p, 60u8)
    } else {
        let e = run_end(s, p, ByteClass::Ident);
        if e == p {
            Err(ParseError::ExpectedIdentifier { at: p as usize })
        } else {
            match with_group(s, s.subrange(p, e), past_blanks(s, e), 60u8) {
                Err(err) => Err(err),
                Ok((t, q)) => with_group(s, t, q, 123u8),
            }
        }
    }
}

/// The segments that follow `acc` after each `::` from `p` on, and where they end.
pub open spec fn read_rest(s: Seq<u8>, p: int, acc: Seq<Seq<u8>>) -> Result<
    (Seq<Seq<u8>>, int),
    ParseError,
>
    decreases s.len() - p,
{
    if 0 <= p <= s.len() && occurs_at(s, p, path_sep()) {
        match read_segment(s, past_blanks(s, p + 2)) {
            Err(err) => Err(err),
            Ok((seg, q)) => if p < q <= s.len() {
                read_rest(s, q, acc.push(seg))
            } else {
                Err(ParseError::UnexpectedToken { at: q as usize })
            },
        }
    } else {
        Ok((acc, p))
    }
}

/// A whole path record at `p`: segments joined by `::`, then a line break.
pub open spec fn read_path(s: Seq<u8>, p: int) -> Result<(Seq<Seq<u8>>, int), ParseError> {
    match read_segment(s, p) {
        Err(err) => Err(err),
        Ok((seg, q)) => match read_rest(s, q, seq![seg]) {
            Err(err) => Err(err),
            Ok((segs, e)) => if occurs_at(s, e, newline()) {
                Ok((segs, past_blanks(s, e + 1)))
            } else {
                Err(ParseError::UnexpectedToken { at: e as usize })
            },
        },
    }
}

pub proof fn lemma_with_group_advances(s: Seq<u8>, acc: Seq<u8>, q: int, open: u8)
    ensures
        with_group(s, acc, q, open) is Ok ==> with_group(s, acc, q, open).unwrap().1 >= q,
{
    if 0 <= q < s.len() && s[q] == open {
        lemma_group_end_bounds(s, q, open, 0);
        lemma_past_blanks_ge(s, group_end(s, q, open, 0));
    }
}

pub proof fn lemma_segment_advances(s: Seq<u8>, p: int)
    ensures
        read_segment(s, p) is Ok ==> read_segment(s, p).unwrap().1 >= p,
{
    lemma_past_blanks_ge(s, p + 11);
    lemma_with_group_advances(s, Seq::empty(), p, 60u8);
    let e = run_end(s, p, ByteClass::Ident);
    lemma_run_end_ge(s, p, ByteClass::Ident);
    lemma_past_blanks_ge(s, e);
    lemma_with_group_advances(s, s.subrange(p, e), past_blanks(s, e), 60u8);
    match with_group(s, s.subrange(p, e), past_blanks(s, e), 60u8) {
        Ok((t, q)) => lemma_with_group_advances(s, t, q, 123u8),
        Err(_) => {},
    }
}

pub proof fn lemma_with_group_keeps(s: Seq<u8>, acc: Seq<u8>, q: int, open: u8)
    ensures
        with_group(s, acc, q, open) is Ok ==> with_group(s, acc, q, open).unwrap().0.len()
            >= acc.len(),
{
}

/// A segment that reads is never empty.
pub proof fn lemma_segment_nonempty(s: Seq<u8>, p: int)
    ensures
        read_segment(s, p) is Ok ==> read_segment(s, p).unwrap().0.len() > 0,
{
    if !occurs_at(s, p, closure_marker()) && 0 <= p < s.len() && s[p] == 60u8 {
        lemma_group_end_bounds(s, p, 60u8, 0);
    }
    let e = run_end(s, p, ByteClass::Ident);
    lemma_run_end_ge(s, p, ByteClass::Ident);
    if 0 <= p <= s.len() {
        lemma_run_end_bounds(s, p, ByteClass::Ident);
        assert(s.subrange(p, e).len() == e - p);
    }
    lemma_with_group_keeps(s, s.subrange(p, e), past_blanks(s, e), 60u8);
    match with_group(s, s.subrange(p, e), past_blanks(s, e), 60u8) {
        Ok((t, q)) => lemma_with_group_keeps(s, t, q, 123u8),
        Err(_) => {},
    }
}

pub proof fn lemma_rest_advances(s: Seq<u8>, p: int, acc: Seq<Seq<u8>>)
    ensures
        read_rest(s, p, acc) is Ok ==> read_rest(s, p, acc).unwrap().1 >= p,
    decreases s.len() - p,
{
    if 0 <= p <= s.len() && occurs_at(s, p, path_sep()) {
        match read_segment(s, past_blanks(s, p + 2)) {
            Ok((seg, q)) => if p < q <= s.len() {
                lemma_rest_advances(s, q, acc.push(seg));
            },
            Err(_) => {},
        }
    }
}

pub proof fn lemma_path_advances(s: Seq<u8>, p: int)
    ensures
        read_path(s, p) is Ok ==> read_path(s, p).unwrap().1 > p,
{
    lemma_segment_advances(s, p);
    match read_segment(s, p) {
        Ok((seg, q)) => {
            lemma_rest_advances(s, q, seq![seg]);
            match read_rest(s, q, seq![seg]) {
                Ok((segs, e)) => lemma_past_blanks_ge(s, e + 1),
                Err(_) => {},
            }
        },
        Err(_) => {},
    }
}

/// A symbol path told apart into its origin module, its scope and its leaf.
pub struct CallPath {
    pub first: Vec<u8>,
    pub scope: Option<Vec<u8>>,
    pub last: Option<Vec<u8>>,
}

impl CallPath {
    /// The path that classifying `segs` gives.
    pub open spec fn classifies(&self, segs: Seq<Seq<u8>>) -> bool {
        &&& segs.len() > 0
        &&& self.first@ == segs[0]
        &&& opt_view(self.scope) == scope_of(segs)
        &&& opt_view(self.last) == leaf_of(segs)
    }

    /// The five pieces that the path is shown as: origin, separator, scope,
    /// separator, leaf.
    pub open spec fn parts_spec(&self) -> Seq<Seq<u8>> {
        seq![
            self.first@,
            if self.scope.is_some() || self.last.is_some() {
                origin_sep()
            } else {
                Seq::empty()
            },
            match self.scope {
                Some(v) => v@,
                None => Seq::empty(),
            },
            if self.scope.is_some() {
                path_sep()
            } else {
                Seq::empty()
            },
            match self.last {
                Some(v) => v@,
                None => Seq::empty(),
            },
        ]
    }

    /// Classifies the segments of a path. The leaf is the last segment when
    /// there are two or more; the scope is the one before it when there are
    /// three or more and it starts with an upper-case letter or the leaf is
    /// synthetic. This is a structural guess, not a demangler.
    pub fn from_components(components: Vec<Vec<u8>>) -> (r: CallPath)
        requires
            components@.len() > 0,
            forall|i: int| 0 <= i < components@.len() ==> (#[trigger] components@[i])@.len() > 0,
        ensures
            r.classifies(views(components@)),
    {
        let n = components.len();
        let first = copy_bytes(&components[0]);
        let mut scope: Option<Vec<u8>> = None;
        let mut last: Option<Vec<u8>> = None;
        let mut weird_fn_name = false;
        if n > 1 {
            let name = copy_bytes(&components[n - 1]);
            weird_fn_name = name.len() > 0 && (name[0] == 123u8 || name[0] == 60u8);
            last = Some(name);
        }
        if n > 2 {
            let name = copy_bytes(&components[n - 2]);
            let in_struct = first_is_uppercase(&name);
            if in_struct || weird_fn_name {
                scope = Some(name);
            }
        }
        CallPath { first, scope, last }
    }

    pub fn parts(&self) -> (r: Vec<Vec<u8>>)
        ensures
            views(r@) == self.parts_spec(),
    {
        let mut r: Vec<Vec<u8>> = Vec::new();
        r.push(copy_bytes(&self.first));
        if self.scope.is_some() || self.last.is_some() {
            r.push(vec![32u8, 58u8, 58u8, 32u8]);
        } else {
            r.push(Vec::new());
        }
        match &self.scope {
            Some(v) => r.push(copy_bytes(v)),
            None => r.push(Vec::new()),
        }
        if self.scope.is_some() {
            r.push(vec![58u8, 58u8]);
        } else {
            r.push(Vec::new());
        }
        match &self.last {
            Some(v) => r.push(copy_bytes(v)),
            None => r.push(Vec::new()),
        }
        assert(views(r@) =~= self.parts_spec());
        r
    }
}

/// A path of one segment has neither scope nor leaf.
pub proof fn lemma_one_segment(p: CallPath, segs: Seq<Seq<u8>>)
    requires
        p.classifies(segs),
        segs.len() == 1,
    ensures
        p.scope is None,
        p.last is None,
{
}

/// A path of two segments has the second as its leaf, and no scope.
pub proof fn lemma_two_segments(p: CallPath, segs: Seq<Seq<u8>>)
    requires
        p.classifies(segs),
        segs.len() == 2,
    ensures
        opt_view(p.last) == Some(segs[1]),
        p.scope is None,
{
}

/// In a path of three segments whose middle one starts with an upper-case
/// letter, the origin, scope and leaf are the three segments in order.
pub proof fn lemma_type_scope(p: CallPath, segs: Seq<Seq<u8>>)
    requires
        p.classifies(segs),
        segs.len() == 3,
        starts_upper(segs[1]),
    ensures
        p.first@ == segs[0],
        opt_view(p.scope) == Some(segs[1]),
        opt_view(p.last) == Some(segs[2]),
{
}

/// In a path of three segments that ends in a closure, the middle segment is
/// the scope, whatever its case.
pub proof fn lemma_closure_scope(p: CallPath, segs: Seq<Seq<u8>>)
    requires
        p.classifies(segs),
        segs.len() == 3,
        segs[2] == closure_marker(),
    ensures
        opt_view(p.scope) == Some(segs[1]),
        opt_view(p.last) == Some(closure_marker()),
{
}

pub fn copy_bytes(v: &Vec<u8>) -> (r: Vec<u8>)
    ensures
        r@ == v@,
{
    let mut r: Vec<u8> = Vec::new();
    let mut i: usize = 0;
    while i < v.len()
        invariant
            0 <= i <= v@.len(),
            r@ == v@.subrange(0, i as int),
        decreases v.len() - i,
    {
        r.push(v[i]);
        i = i + 1;
        assert(r@ =~= v@.subrange(0, i as int));
    }
    assert(r@ =~= v@);
    r
}

/// Appends to `acc` the group opened by `open` that starts here, if one does.
fn take_group(cur: &mut Cursor, acc: Vec<u8>, open: u8) -> (r: Result<Vec<u8>, ParseError>)
    requires
        old(cur).wf(),
    ensures
        final(cur).wf(),
        final(cur).source() == old(cur).source(),
        match with_group(old(cur).source(), acc@, old(cur).position(), open) {
            Ok((t, q)) => r.is_ok() && r.unwrap()@ == t && final(cur).position() == q,
            Err(e) => r == Err::<Vec<u8>, ParseError>(e),
        },
{
    if cur.check(&[open]) {
        assert([open]@ =~= seq![open]);
        let g = match cur.skip_around(open) {
        Ok(v) => v,
        Err(e) => return Err(e),
    };
        let mut acc = acc;
        let mut i: usize = 0;
        let ghost a0 = acc@;
        while i < g.len()
            invariant
                0 <= i <= g@.len(),
                acc@ == a0 + g@.subrange(0, i as int),
            decreases g.len() - i,
        {
            acc.push(g[i]);
            i = i + 1;
            assert(acc@ =~= a0 + g@.subrange(0, i as int));
        }
        assert(g@.subrange(0, i as int) =~= g@);
        Ok(acc)
    } else {
        proof {
            let s = old(cur).source();
            let q = old(cur).position();
            if 0 <= q < s.len() && s[q] == open {
                assert(s.subrange(q, q + 1) =~= [open]@);
            }
        }
        Ok(acc)
    }
}

/// Reads one segment of a path: the closure marker, an impl block in angle
/// brackets, or an identifier with its generic arguments and shim, if any.
pub fn parse_segment(cur: &mut Cursor) -> (r: Result<Vec<u8>, ParseError>)
    requires
        old(cur).wf(),
    ensures
        final(cur).wf(),
        final(cur).source() == old(cur).source(),
        match read_segment(old(cur).source(), old(cur).position()) {
            Ok((t, q)) => r.is_ok() && r.unwrap()@ == t && final(cur).position() == q,
            Err(e) => r == Err::<Vec<u8>, ParseError>(e),
        },
{
    let marker: [u8; 11] = [123u8, 123u8, 99u8, 108u8, 111u8, 115u8, 117u8, 114u8, 101u8, 125u8, 125u8];
    assert(marker@ =~= closure_marker());
    if let Some(bytes) = cur.skip(&marker) {
        return Ok(bytes);
    }
    proof {
        let s = old(cur).source();
        let q = old(cur).position();
        lemma_run_end_bounds(s, q, ByteClass::Ident);
        if 0 <= q < s.len() && s[q] == 60u8 {
            assert(s.subrange(q, q + 1) =~= seq![60u8]);
        }
    }
    assert([60u8]@ =~= seq![60u8]);
    if cur.check(&[60u8]) {
        return take_group(cur, Vec::new(), 60u8);
    }
    let ident = match cur.expect_ident() {
        Ok(v) => v,
        Err(e) => return Err(e),
    };
    let with_generics = match take_group(cur, ident, 60u8) {
        Ok(v) => v,
        Err(e) => return Err(e),
    };
    take_group(cur, with_generics, 123u8)
}

/// Reads a path record: segments joined by `::`, ended by a line break, and
/// classifies it.
pub fn parse_path(cur: &mut Cursor) -> (r: Result<CallPath, ParseError>)
    requires
        old(cur).wf(),
    ensures
        final(cur).wf(),
        final(cur).source() == old(cur).source(),
        match read_path(old(cur).source(), old(cur).position()) {
            Ok((segs, q)) => r.is_ok() && r.unwrap().classifies(segs) && final(cur).position() == q,
            Err(e) => r == Err::<CallPath, ParseError>(e),
        },
{
    let ghost s = cur.source();
    proof {
        lemma_segment_nonempty(s, cur.position());
    }
    let first = match parse_segment(cur) {
        Ok(v) => v,
        Err(e) => return Err(e),
    };
    let mut parts: Vec<Vec<u8>> = Vec::new();
    parts.push(first);
    assert(views(parts@) =~= seq![first@]);
    let sep: [u8; 2] = [58u8, 58u8];
    assert(sep@ =~= path_sep());
    loop
        invariant
            cur.wf(),
            cur.source() == s,
            s == old(cur).source(),
            parts@.len() > 0,
            sep@ == path_sep(),
            read_rest(s, cur.position(), views(parts@)) == match read_segment(
                s,
                old(cur).position(),
            ) {
                Ok((seg, q)) => read_rest(s, q, seq![seg]),
                Err(e) => Err(e),
            },
            read_segment(s, old(cur).position()).is_ok(),
            forall|i: int| 0 <= i < parts@.len() ==> (#[trigger] parts@[i])@.len() > 0,
        ensures
            forall|i: int| 0 <= i < parts@.len() ==> (#[trigger] parts@[i])@.len() > 0,
            cur.wf(),
            cur.source() == s,
            read_rest(s, cur.position(), views(parts@)) == match read_segment(
                s,
                old(cur).position(),
            ) {
                Ok((seg, q)) => read_rest(s, q, seq![seg]),
                Err(e) => Err(e),
            },
            read_segment(s, old(cur).position()).is_ok(),
            !occurs_at(s, cur.position(), path_sep()),
            parts@.len() > 0,
        decreases s.len() - cur.position(),
    {
        let p: usize = cur.offset();
        if cur.skip(&sep).is_none() {
            break;
        }
        proof {
            lemma_past_blanks_bounds(s, p + 2);
            lemma_past_blanks_bounds(s, p as int);
        }
        proof {
            lemma_segment_nonempty(s, cur.position());
        }
        let seg = match parse_segment(cur) {
            Ok(v) => v,
            Err(e) => return Err(e),
        };
        if cur.offset() <= p {
            return Err(ParseError::UnexpectedToken { at: cur.offset() });
        }
        let ghost before = views(parts@);
        parts.push(seg);
        assert(views(parts@) =~= before.push(seg@));
    }
    let nl: [u8; 1] = [10u8];
    assert(nl@ =~= newline());
    assert(read_rest(s, cur.position(), views(parts@)) == Ok::<(Seq<Seq<u8>>, int), ParseError>(
        (views(parts@), cur.position()),
    ));
    if let Err(e) = cur.expect(&nl) {
        return Err(e);
    }
    Ok(CallPath::from_components(parts))
}

} // verus!
