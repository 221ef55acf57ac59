//! Colours: a rainbow hue for each frame, and a stable colour for each module.
use vstd::prelude::*;
use crate::path::copy_bytes;

verus! {

/// The terminal colours that modules are shown in.
#[derive(Debug, Clone, Copy, PartialEq, Eq, Structural)]
pub enum ModuleColor {
    BrightRed,
    Blue,
    BrightYellow,
    BrightGreen,
    BrightCyan,
    Cyan,
    BrightBlue,
    BrightMagenta,
}

pub const PALETTE_LEN: usize = 5;

/// The colours handed out in turn to modules without a fixed one.
pub open spec fn palette(i: int) -> ModuleColor {
    if i == 0 {
        ModuleColor::BrightGreen
    } else if i == 1 {
        ModuleColor::BrightCyan
    } else if i == 2 {
        ModuleColor::Cyan
    } else if i == 3 {
        ModuleColor::BrightBlue
    } else {
        ModuleColor::BrightMagenta
    }
}

pub fn palette_color(i: usize) -> (r: ModuleColor)
    ensures
        r == palette(i as int),
{
    if i == 0 {
        ModuleColor::BrightGreen
    } else if i == 1 {
        ModuleColor::BrightCyan
    } else if i == 2 {
        ModuleColor::Cyan
    } else if i == 3 {
        ModuleColor::BrightBlue
    } else {
        ModuleColor::BrightMagenta
    }
}

pub open spec fn std_name() -> Seq<u8> {
    seq![115u8, 116u8, 100u8]
}

pub open spec fn core_name() -> Seq<u8> {
    seq![99u8, 111u8, 114u8, 101u8]
}

pub open spec fn begin_unwind_name() -> Seq<u8> {
    seq![
        114u8, 117u8, 115u8, 116u8, 95u8, 98u8, 101u8, 103u8, 105u8, 110u8, 95u8, 117u8, 110u8,
        119u8, 105u8, 110u8, 100u8,
    ]
}

/// The colour of the first entry for `name`, if any.
pub open spec fn color_in(entries: Seq<(Seq<u8>, ModuleColor)>, name: Seq<u8>) -> Option<ModuleColor>
    decreases entries.len(),
{
    if entries.len() == 0 {
        None
    } else if entries[0].0 == name {
        Some(entries[0].1)
    } else {
        color_in(entries.drop_first(), name)
    }
}

pub proof fn lemma_color_in_push(
    entries: Seq<(Seq<u8>, ModuleColor)>,
    e: (Seq<u8>, ModuleColor),
    name: Seq<u8>,
)
    ensures
        color_in(entries.push(e), name) == (if color_in(entries, name).is_some() {
            color_in(entries, name)
        } else if e.0 == name {
            Some(e.1)
        } else {
            None
        }),
    decreases entries.len(),
{
    if entries.len() > 0 {
        assert(entries.push(e).drop_first() =~= entries.drop_first().push(e));
        lemma_color_in_push(entries.drop_first(), e, name);
    } else {
        assert(entries.push(e).drop_first() =~= entries);
    }
}

/// The fixed colours a table starts with; the reporting crate comes first,
/// so that its own colour wins where its name is one of the others.
pub open spec fn seed_entries(crate_name: Seq<u8>) -> Seq<(Seq<u8>, ModuleColor)> {
    seq![
        (crate_name, ModuleColor::BrightYellow),
        (std_name(), ModuleColor::BrightRed),
        (begin_unwind_name(), ModuleColor::BrightRed),
        (core_name(), ModuleColor::Blue),
    ]
}

/// A table's entries and next palette slot after `name` asks for its colour.
pub open spec fn table_step(
    entries: Seq<(Seq<u8>, ModuleColor)>,
    next: int,
    name: Seq<u8>,
) -> (Seq<(Seq<u8>, ModuleColor)>, int) {
    if color_in(entries, name) is Some {
        (entries, next)
    } else {
        (entries.push((name, palette(next))), (next + 1) % (PALETTE_LEN as int))
    }
}

/// A table's entries and next palette slot after each of `names` in turn.
pub open spec fn table_after(
    entries: Seq<(Seq<u8>, ModuleColor)>,
    next: int,
    names: Seq<Seq<u8>>,
) -> (Seq<(Seq<u8>, ModuleColor)>, int)
    decreases names.len(),
{
    if names.len() == 0 {
        (entries, next)
    } else {
        let t = table_after(entries, next, names.drop_last());
        table_step(t.0, t.1, names.last())
    }
}

/// The colour a rendering gives to each of `names`, asked in turn, where the
/// reporting crate is `crate_name`.
pub open spec fn module_color(crate_name: Seq<u8>, names: Seq<Seq<u8>>) -> Option<ModuleColor> {
    color_in(table_after(seed_entries(crate_name), 0, names).0, names.last())
}

/// The colours given to modules during one rendering: fixed ones for the
/// standard library, the unwinding entry point and the reporting crate, and
/// the palette in turn for any other module, on first sight.
pub struct ColorTable {
    entries: Vec<(Vec<u8>, ModuleColor)>,
    next: usize,
}

impl ColorTable {
    pub closed spec fn entries_view(&self) -> Seq<(Seq<u8>, ModuleColor)> {
        self.entries@.map_values(|e: (Vec<u8>, ModuleColor)| (e.0@, e.1))
    }

    pub closed spec fn next_slot(&self) -> int {
        self.next as int
    }

    /// The colour that `name` has been given, if any.
    pub open spec fn color_of(&self, name: Seq<u8>) -> Option<ModuleColor> {
        color_in(self.entries_view(), name)
    }

    pub open spec fn wf(&self) -> bool {
        0 <= self.next_slot() < PALETTE_LEN
    }

    /// A table with the fixed colours; `crate_name` is the reporting crate.
    pub fn new(crate_name: &Vec<u8>) -> (r: ColorTable)
        ensures
            r.wf(),
            r.next_slot() == 0,
            r.entries_view() == seed_entries(crate_name@),
    {
        let mut entries: Vec<(Vec<u8>, ModuleColor)> = Vec::new();
        entries.push((copy_bytes(crate_name), ModuleColor::BrightYellow));
        entries.push((vec![115u8, 116u8, 100u8], ModuleColor::BrightRed));
        entries.push(
            (
                vec![
                    114u8, 117u8, 115u8, 116u8, 95u8, 98u8, 101u8, 103u8, 105u8, 110u8, 95u8,
                    117u8, 110u8, 119u8, 105u8, 110u8, 100u8,
                ],
                ModuleColor::BrightRed,
            ),
        );
        entries.push((vec![99u8, 111u8, 114u8, 101u8], ModuleColor::Blue));
        let r = ColorTable { entries, next: 0 };
        assert(r.entries_view() =~= seed_entries(crate_name@));
        r
    }

    /// The colour of `name`: the one it already has, or else the next one of
    /// the palette, which it keeps from then on.
    pub fn color_for(&mut self, name: &Vec<u8>) -> (r: ModuleColor)
        requires
            old(self).wf(),
        ensures
            final(self).wf(),
            (final(self).entries_view(), final(self).next_slot()) == table_step(
                old(self).entries_view(),
                old(self).next_slot(),
                name@,
            ),
            match old(self).color_of(name@) {
                Some(c) => r == c && final(self).entries_view() == old(self).entries_view()
                    && final(self).next_slot() == old(self).next_slot(),
                None => r == palette(old(self).next_slot()) && final(self).entries_view()
                    == old(self).entries_view().push((name@, r)) && final(self).next_slot() == (
                old(self).next_slot() + 1) % (PALETTE_LEN as int),
            },
            forall|n: Seq<u8>|
                #[trigger] old(self).color_of(n) is Some ==> final(self).color_of(n)
                    == old(self).color_of(n),
            final(self).color_of(name@) == Some(r),
    {
        let mut i: usize = 0;
        assert(self.entries_view().subrange(0, self.entries@.len() as int) =~= self.entries_view());
        while i < self.entries.len()
            invariant
                self.wf(),
                self.entries@ == old(self).entries@,
                self.next == old(self).next,
                0 <= i <= self.entries@.len(),
                color_in(self.entries_view().subrange(i as int, self.entries@.len() as int), name@)
                    == self.color_of(name@),
            decreases self.entries.len() - i,
        {
            let ghost rest = self.entries_view().subrange(i as int, self.entries@.len() as int);
            assert(rest.drop_first() =~= self.entries_view().subrange(
                i + 1,
                self.entries@.len() as int,
            ));
            if bytes_eq(&self.entries[i].0, name) {
                return self.entries[i].1;
            }
            i = i + 1;
        }
        let c = palette_color(self.next);
        proof {
            assert(self.entries_view().subrange(i as int, self.entries@.len() as int).len() == 0);
            lemma_color_in_push(self.entries_view(), (name@, c), name@);
            assert forall|n: Seq<u8>| #[trigger] old(self).color_of(n) is Some implies color_in(
                self.entries_view().push((name@, c)),
                n,
            ) == old(self).color_of(n) by {
                lemma_color_in_push(self.entries_view(), (name@, c), n);
            }
        }
        self.entries.push((copy_bytes(name), c));
        assert(self.entries_view() =~= old(self).entries_view().push((name@, c)));
        self.next = (self.next + 1) % PALETTE_LEN;
        c
    }
}

pub fn bytes_eq(a: &Vec<u8>, b: &Vec<u8>) -> (r: bool)
    ensures
        r == (a@ == b@),
{
    if a.len() != b.len() {
        return false;
    }
    let mut i: usize = 0;
    while i < a.len()
        invariant
            a@.len() == b@.len(),
            0 <= i <= a@.len(),
            forall|k: int| 0 <= k < i ==> a@[k] == b@[k],
        decreases a.len() - i,
    {
        if a[i] != b[i] {
            return false;
        }
        i = i + 1;
    }
    assert(a@ =~= b@);
    true
}

/// A hue as a share of the colour circle: `turn_num / turn_den` of a full turn.
#[derive(Debug, Clone, Copy, PartialEq, Eq, Structural)]
pub struct Hue {
    pub turn_num: usize,
    pub turn_den: usize,
}

/// Whether hue `a` comes strictly before hue `b` on the circle.
pub open spec fn hue_before(a: Hue, b: Hue) -> bool {
    (a.turn_num as int) * (b.turn_den as int) < (b.turn_num as int) * (a.turn_den as int)
}

pub open spec fn frame_hue_spec(index: int, count: int) -> Hue {
    Hue { turn_num: index as usize, turn_den: if count >= 1 { count as usize } else { 1 } }
}

/// The hue of frame `index` out of `count`: its index over the count, of a
/// full turn; a count of zero is taken as one.
pub fn frame_hue(index: usize, count: usize) -> (r: Hue)
    ensures
        r == frame_hue_spec(index as int, count as int),
        r.turn_den >= 1,
{
    Hue { turn_num: index, turn_den: if count >= 1 { count } else { 1 } }
}

/// Hues rise strictly with the frame index along a trace of two or more frames.
pub proof fn lemma_hue_increasing(i: usize, j: usize, n: usize)
    requires
        2 <= n,
        i < j < n,
    ensures
        hue_before(frame_hue_spec(i as int, n as int), frame_hue_spec(j as int, n as int)),
{
    assert((i as int) * (n as int) < (j as int) * (n as int)) by (nonlinear_arith)
        requires
            i < j,
            n >= 2,
    ;
}

} // verus!
