//! Rendering a whole trace: frames read one after another, each with its
//! hue and the colour of its module.
use vstd::prelude::*;
use crate::color::{
    begin_unwind_name, color_in, core_name, frame_hue, module_color, seed_entries, table_after, frame_hue_spec, std_name, ColorTable, Hue, ModuleColor,
};
use crate::cursor::{lemma_past_blanks_bounds, occurs_at, past_blanks, Cursor, ParseError};
use crate::frame::{lemma_frame_advances, parse_frame, read_frame, Frame, FrameSpec};
use crate::path::{copy_bytes, newline};

verus! {

/// How rendering a trace ended.
#[derive(Debug, Clone, Copy, PartialEq, Eq, Structural)]
pub enum Outcome {
    /// Every frame was read.
    Complete,
    /// No trace was captured; the text says so and holds no frames.
    Disabled,
    /// Reading stopped at a malformed record; the frames before it stand.
    Failed(ParseError),
}

/// A frame as it is shown: its record, its hue, and the colour of its origin
/// module (absent for the marker frame without a location).
pub struct RenderedFrame {
    pub frame: Frame,
    pub hue: Hue,
    pub color: Option<ModuleColor>,
}

pub struct TraceReport {
    pub frames: Vec<RenderedFrame>,
    pub outcome: Outcome,
}

pub open spec fn disabled_text() -> Seq<u8> {
    seq![
        100u8, 105u8, 115u8, 97u8, 98u8, 108u8, 101u8, 100u8, 32u8, 98u8, 97u8, 99u8, 107u8,
        116u8, 114u8, 97u8, 99u8, 101u8,
    ]
}

pub open spec fn newline_count(s: Seq<u8>) -> nat
    decreases s.len(),
{
    if s.len() == 0 {
        0
    } else {
        newline_count(s.drop_last()) + if s.last() == 10u8 {
            1nat
        } else {
            0nat
        }
    }
}

/// The number of lines of `s`: a last line without a line break counts too.
pub open spec fn lines_count(s: Seq<u8>) -> nat {
    newline_count(s) + if s.len() > 0 && s.last() != 10u8 {
        1nat
    } else {
        0nat
    }
}

/// The frames read from `p` on, and the error that stopped reading, if any.
#[verifier::opaque]
pub open spec fn trace_from(s: Seq<u8>, p: int) -> (Seq<FrameSpec>, Option<ParseError>)
    decreases s.len() - p,
{
    if !(0 <= p < s.len()) {
        (Seq::empty(), None)
    } else {
        match read_frame(s, p) {
            Err(e) => (Seq::empty(), Some(e)),
            Ok((f, q)) => if f.location.is_none() {
                (seq![f], None)
            } else if occurs_at(s, q, newline()) {
                let r = past_blanks(s, q + 1);
                if p < r <= s.len() {
                    (seq![f] + trace_from(s, r).0, trace_from(s, r).1)
                } else {
                    (seq![f], None)
                }
            } else {
                (seq![f], Some(ParseError::UnexpectedToken { at: q as usize }))
            },
        }
    }
}

pub proof fn lemma_trace_end(s: Seq<u8>, p: int)
    requires
        !(0 <= p < s.len()),
    ensures
        trace_from(s, p) == (Seq::<FrameSpec>::empty(), None::<ParseError>),
{
    reveal(trace_from);
}

pub proof fn lemma_trace_error(s: Seq<u8>, p: int, e: ParseError)
    requires
        0 <= p < s.len(),
        read_frame(s, p) == Err::<(FrameSpec, int), ParseError>(e),
    ensures
        trace_from(s, p) == (Seq::<FrameSpec>::empty(), Some(e)),
{
    reveal(trace_from);
}

pub proof fn lemma_trace_frame(s: Seq<u8>, p: int, f: FrameSpec, q: int)
    requires
        0 <= p < s.len(),
        read_frame(s, p) == Ok::<(FrameSpec, int), ParseError>((f, q)),
    ensures
        f.location is None ==> trace_from(s, p) == (seq![f], None::<ParseError>),
        f.location is Some && !occurs_at(s, q, newline()) ==> trace_from(s, p) == (
            seq![f],
            Some(ParseError::UnexpectedToken { at: q as usize }),
        ),
        f.location is Some && occurs_at(s, q, newline()) && p < past_blanks(s, q + 1) <= s.len()
            ==> trace_from(s, p) == (
            seq![f] + trace_from(s, past_blanks(s, q + 1)).0,
            trace_from(s, past_blanks(s, q + 1)).1,
        ),
        f.location is Some && occurs_at(s, q, newline()) && !(p < past_blanks(s, q + 1)
            <= s.len()) ==> trace_from(s, p) == (seq![f], None::<ParseError>),
{
    reveal(trace_from);
}

/// A frame record with a location that ends the text, with no line break
/// after it, stops the reading with `UnexpectedToken`; that frame is kept.
pub proof fn lemma_missing_line_break(s: Seq<u8>, p: int, f: FrameSpec)
    requires
        0 <= p < s.len(),
        read_frame(s, p) == Ok::<(FrameSpec, int), ParseError>((f, s.len() as int)),
        f.location is Some,
    ensures
        trace_from(s, p) == (seq![f], Some(ParseError::UnexpectedToken { at: s.len() as usize })),
{
    lemma_trace_frame(s, p, f, s.len() as int);
}

pub open spec fn outcome_of(e: Option<ParseError>) -> Outcome {
    match e {
        None => Outcome::Complete,
        Some(e) => Outcome::Failed(e),
    }
}

pub fn count_lines(s: &Vec<u8>) -> (r: usize)
    ensures
        r == lines_count(s@),
{
    let mut n: usize = 0;
    let mut i: usize = 0;
    while i < s.len()
        invariant
            0 <= i <= s@.len(),
            n == newline_count(s@.subrange(0, i as int)),
            n <= i,
            i > 0 && s@[i - 1] != 10u8 ==> n < i,
        decreases s.len() - i,
    {
        assert(s@.subrange(0, i + 1).drop_last() =~= s@.subrange(0, i as int));
        if s[i] == 10u8 {
            n = n + 1;
        }
        i = i + 1;
    }
    assert(s@.subrange(0, i as int) =~= s@);
    if s.len() > 0 && s[s.len() - 1] != 10u8 {
        n + 1
    } else {
        n
    }
}

fn starts_with_disabled(s: &Vec<u8>) -> (r: bool)
    ensures
        r == occurs_at(s@, 0, disabled_text()),
{
    let lit: [u8; 18] = [
        100u8, 105u8, 115u8, 97u8, 98u8, 108u8, 101u8, 100u8, 32u8, 98u8, 97u8, 99u8, 107u8,
        116u8, 114u8, 97u8, 99u8, 101u8,
    ];
    assert(lit@ =~= disabled_text());
    let cur = Cursor::new(copy_bytes(s));
    cur.check(&lit)
}

/// What holds of the frames shown so far: each hue follows from its index,
/// a frame has a module colour exactly when it has a location, that colour is
/// the one the table holds for its origin, and the fixed colours stand.
#[verifier::opaque]
pub open spec fn colored(
    frames: Seq<RenderedFrame>,
    table: ColorTable,
    count: int,
    crate_name: Seq<u8>,
) -> bool {
    &&& table.wf()
    &&& forall|i: int|
        0 <= i < frames.len() ==> (#[trigger] frames[i]).hue == frame_hue_spec(
            frames[i].frame.index as int,
            count,
        ) && (frames[i].color is Some <==> frames[i].frame.location is Some)
    &&& forall|i: int|
        0 <= i < frames.len() && (#[trigger] frames[i]).color is Some ==> table.color_of(
            frames[i].frame.path.first@,
        ) == frames[i].color
    &&& crate_name != std_name() ==> table.color_of(std_name()) == Some(ModuleColor::BrightRed)
    &&& crate_name != core_name() ==> table.color_of(core_name()) == Some(ModuleColor::Blue)
    &&& (table.entries_view(), table.next_slot()) == table_after(
        seed_entries(crate_name),
        0,
        located_origins(frames),
    )
    &&& forall|i: int|
        0 <= i < frames.len() && (#[trigger] frames[i]).color is Some ==> frames[i].color
            == module_color(crate_name, located_origins(frames.subrange(0, i + 1)))
}

/// The origin modules of the frames that have a location, in order.
pub open spec fn located_origins(frames: Seq<RenderedFrame>) -> Seq<Seq<u8>>
    decreases frames.len(),
{
    if frames.len() == 0 {
        Seq::empty()
    } else if frames.last().frame.location is Some {
        located_origins(frames.drop_last()).push(frames.last().frame.path.first@)
    } else {
        located_origins(frames.drop_last())
    }
}

fn push_frame(
    frames: &mut Vec<RenderedFrame>,
    table: &mut ColorTable,
    frame: Frame,
    frame_count: usize,
    crate_name: &Vec<u8>,
)
    requires
        colored(old(frames)@, *old(table), frame_count as int, crate_name@),
    ensures
        colored(final(frames)@, *final(table), frame_count as int, crate_name@),
        final(frames)@.len() == old(frames)@.len() + 1,
        forall|i: int| 0 <= i < old(frames)@.len() ==> final(frames)@[i] == old(frames)@[i],
        final(frames)@.last().frame == frame,
{
    reveal(colored);
    let ghost before = frames@;
    let hue = frame_hue(frame.index, frame_count);
    let color = if frame.location.is_some() {
        Some(table.color_for(&frame.path.first))
    } else {
        None
    };
    frames.push(RenderedFrame { frame, hue, color });
    proof {
        let n = before.len() as int;
        assert(frames@.drop_last() =~= before);
        assert(frames@.subrange(0, n + 1) =~= frames@);
        if frames@.last().frame.location is Some {
            assert(located_origins(frames@) == located_origins(before).push(
                frames@.last().frame.path.first@,
            ));
            assert(located_origins(frames@).drop_last() =~= located_origins(before));
            assert(located_origins(frames@).last() == frames@.last().frame.path.first@);
        } else {
            assert(located_origins(frames@) == located_origins(before));
        }
        assert forall|i: int|
            0 <= i < frames@.len() && (#[trigger] frames@[i]).color is Some implies frames@[i].color
                == module_color(crate_name@, located_origins(frames@.subrange(0, i + 1))) by {
            if i < n {
                assert(frames@.subrange(0, i + 1) =~= before.subrange(0, i + 1));
            } else {
                assert(located_origins(frames@).drop_last() =~= located_origins(before));
            }
        }
    }
}

/// Reads every frame of `source` and gives each its hue and the colour of
/// its module; `crate_name` is the reporting crate, which has a colour of
/// its own. A trace that says it was not captured yields no frames. A
/// malformed record stops reading; the frames before it are kept.
#[verifier::rlimit(60)]
pub fn render_trace(source: &Vec<u8>, crate_name: &Vec<u8>) -> (r: TraceReport)
    ensures
        occurs_at(source@, 0, disabled_text()) ==> r.outcome == Outcome::Disabled
            && r.frames@.len() == 0,
        !occurs_at(source@, 0, disabled_text()) ==> {
            let t = trace_from(source@, past_blanks(source@, 0));
            &&& r.frames@.len() == t.0.len()
            &&& forall|i: int|
                0 <= i < t.0.len() ==> (#[trigger] r.frames@[i]).frame.matches(t.0[i])
            &&& r.outcome == outcome_of(t.1)
        },
        forall|i: int|
            0 <= i < r.frames@.len() ==> (#[trigger] r.frames@[i]).hue == frame_hue_spec(
                r.frames@[i].frame.index as int,
                (lines_count(source@) / 2) as int,
            ) && (r.frames@[i].color is Some <==> r.frames@[i].frame.location is Some),
        forall|i: int, j: int|
            0 <= i < r.frames@.len() && 0 <= j < r.frames@.len() && (
            #[trigger] r.frames@[i]).color is Some && (#[trigger] r.frames@[j]).color is Some
                && r.frames@[i].frame.path.first@ == r.frames@[j].frame.path.first@
                ==> r.frames@[i].color == r.frames@[j].color,
        forall|i: int|
            0 <= i < r.frames@.len() && (#[trigger] r.frames@[i]).color is Some ==> r.frames@[i].color
                == module_color(crate_name@, located_origins(r.frames@.subrange(0, i + 1))),
        forall|i: int|
            0 <= i < r.frames@.len() && (#[trigger] r.frames@[i]).color is Some
                && r.frames@[i].frame.path.first@ == std_name() && crate_name@ != std_name()
                ==> r.frames@[i].color == Some(ModuleColor::BrightRed),
        forall|i: int|
            0 <= i < r.frames@.len() && (#[trigger] r.frames@[i]).color is Some
                && r.frames@[i].frame.path.first@ == core_name() && crate_name@ != core_name()
                ==> r.frames@[i].color == Some(ModuleColor::Blue),
{
    let mut frames: Vec<RenderedFrame> = Vec::new();
    if starts_with_disabled(source) {
        return TraceReport { frames, outcome: Outcome::Disabled };
    }
    let frame_count = count_lines(source) / 2;
    let ghost s = source@;
    let mut cur = Cursor::new(copy_bytes(source));
    cur.skip_whitespace();
    let ghost p0 = cur.position();
    let mut table = ColorTable::new(crate_name);
    proof {
        reveal_with_fuel(color_in, 5);
        let e = table.entries_view();
        assert(e.drop_first()[0].0 == std_name());
        assert(e.drop_first().drop_first().drop_first()[0].0 == core_name());
        assert(std_name() != begin_unwind_name());
        assert(std_name() != core_name()) by {
            assert(std_name().len() != core_name().len());
        }
        assert(core_name() != begin_unwind_name()) by {
            assert(core_name().len() != begin_unwind_name().len());
        }
        assert(core_name() != std_name());
        reveal(colored);
    }
    let ghost mut done: Seq<FrameSpec> = Seq::empty();
    let nl: [u8; 1] = [10u8];
    assert(nl@ =~= newline());
    while !cur.finished()
        invariant
            cur.wf(),
            cur.source() == s,
            s == source@,
            !occurs_at(s, 0, disabled_text()),
            p0 == past_blanks(s, 0),
            nl@ == newline(),
            frame_count == lines_count(s) / 2,
            trace_from(s, p0) == (done + trace_from(s, cur.position()).0, trace_from(
                s,
                cur.position(),
            ).1),
            frames@.len() == done.len(),
            forall|i: int| 0 <= i < done.len() ==> (#[trigger] frames@[i]).frame.matches(done[i]),
            colored(frames@, table, frame_count as int, crate_name@),
        decreases s.len() - cur.position(),
    {
        let ghost p = cur.position();
        let frame = match parse_frame(&mut cur) {
            Ok(f) => f,
            Err(e) => {
                proof {
                    lemma_trace_error(s, p, e);
                    assert(done + trace_from(s, p).0 =~= done);
                    reveal(colored);
                }
                return TraceReport { frames, outcome: Outcome::Failed(e) };
            },
        };
        let ghost f = read_frame(s, p).unwrap().0;
        let ghost q = cur.position();
        proof {
            lemma_trace_frame(s, p, f, q);
        }
        let has_location = frame.location.is_some();
        push_frame(&mut frames, &mut table, frame, frame_count, crate_name);
        proof {
            done = done.push(f);
            assert(frames@.last().frame.matches(f));
        }
        if !has_location {
            proof {
                assert(done =~= done.drop_last() + trace_from(s, p).0);
                reveal(colored);
            }
            return TraceReport { frames, outcome: Outcome::Complete };
        }
        if let Err(e) = cur.expect(&nl) {
            proof {
                assert(done =~= done.drop_last() + trace_from(s, p).0);
                reveal(colored);
            }
            return TraceReport { frames, outcome: Outcome::Failed(e) };
        }
        proof {
            lemma_frame_advances(s, p);
            lemma_past_blanks_bounds(s, q + 1);
            assert(done.drop_last() + trace_from(s, p).0 =~= done + trace_from(
                s,
                cur.position(),
            ).0);
        }
    }
    proof {
        lemma_trace_end(s, cur.position());
        assert(done + trace_from(s, cur.position()).0 =~= done);
        reveal(colored);
    }
    TraceReport { frames, outcome: Outcome::Complete }
}

} // verus!
