//! The text of a shown frame: its index label and its file name, with the
//! module that a `mod.rs` file stands for.
use vstd::prelude::*;
use crate::cursor::{digits_value, in_class, is_digit, past_blanks, run_end, ByteClass};
use crate::frame::read_int;
use crate::color::bytes_eq;
use crate::path::{copy_bytes, opt_view, views};

verus! {

/// The decimal digits of `n`, most significant first.
pub open spec fn decimal(n: nat) -> Seq<u8>
    decreases n,
{
    if n < 10 {
        seq![(48 + n) as u8]
    } else {
        decimal(n / 10).push((48 + n % 10) as u8)
    }
}

/// The label of frame `n`: its digits, right-aligned to a width of two.
pub open spec fn label_of(n: nat) -> Seq<u8> {
    if n < 10 {
        seq![32u8] + decimal(n)
    } else {
        decimal(n)
    }
}

pub fn decimal_bytes(n: usize) -> (r: Vec<u8>)
    ensures
        r@ == decimal(n as nat),
    decreases n,
{
    if n < 10 {
        vec![(48 + n) as u8]
    } else {
        let mut v = decimal_bytes(n / 10);
        v.push((48 + n % 10) as u8);
        v
    }
}

/// The label that frame `n` is shown with.
pub fn index_label(n: usize) -> (r: Vec<u8>)
    ensures
        r@ == label_of(n as nat),
{
    let d = decimal_bytes(n);
    if n < 10 {
        let mut r: Vec<u8> = vec![32u8];
        r.push(d[0]);
        assert(r@ =~= seq![32u8] + d@);
        r
    } else {
        d
    }
}

pub proof fn lemma_decimal(n: nat)
    ensures
        decimal(n).len() >= 1,
        forall|k: int| 0 <= k < decimal(n).len() ==> is_digit(#[trigger] decimal(n)[k]),
        digits_value(decimal(n)) == n,
    decreases n,
{
    if n >= 10 {
        lemma_decimal(n / 10);
        assert(decimal(n).drop_last() =~= decimal(n / 10));
        assert(n % 10 < 10);
        assert(((48 + n % 10) as u8) - 48 == n % 10);
        assert((n / 10) * 10 + n % 10 == n);
    } else {
        assert(seq![(48 + n) as u8].drop_last() =~= Seq::<u8>::empty());
        assert(digits_value(Seq::<u8>::empty()) == 0);
        assert(decimal(n).last() == (48 + n) as u8);
    }
}

pub proof fn lemma_run_to_end(s: Seq<u8>, p: int, c: ByteClass)
    requires
        0 <= p <= s.len(),
        forall|k: int| p <= k < s.len() ==> in_class(c, #[trigger] s[k]),
    ensures
        run_end(s, p, c) == s.len(),
    decreases s.len() - p,
{
    if p < s.len() {
        lemma_run_to_end(s, p + 1, c);
    }
}

pub proof fn lemma_run_stops_at(s: Seq<u8>, p: int, e: int, c: ByteClass)
    requires
        0 <= p <= e <= s.len(),
        forall|k: int| p <= k < e ==> in_class(c, #[trigger] s[k]),
        e == s.len() || !in_class(c, s[e]),
    ensures
        run_end(s, p, c) == e,
    decreases e - p,
{
    if p < e {
        lemma_run_stops_at(s, p + 1, e, c);
    }
}

/// Reading a number back from its decimal digits, whatever follows them that
/// is not a digit, gives that number and stops right after the digits.
pub proof fn lemma_decimal_round_trip(n: nat, rest: Seq<u8>)
    requires
        n <= usize::MAX,
        rest.len() == 0 || !is_digit(rest[0]),
    ensures
        ({
            let s = decimal(n) + rest;
            read_int(s, 0) == Ok::<(nat, int), crate::cursor::ParseError>(
                (n, past_blanks(s, decimal(n).len() as int)),
            )
        }),
{
    let d = decimal(n);
    let s = d + rest;
    lemma_decimal(n);
    assert forall|k: int| 0 <= k < d.len() implies in_class(ByteClass::Digit, #[trigger] s[k]) by {
        assert(s[k] == d[k]);
    }
    if rest.len() > 0 {
        assert(s[d.len() as int] == rest[0]);
    }
    lemma_run_stops_at(s, 0, d.len() as int, ByteClass::Digit);
    assert(s.subrange(0, d.len() as int) =~= d);
}

/// Reading back the label of a frame index gives that index.
pub proof fn lemma_label_round_trip(n: usize)
    ensures
        ({
            let s = label_of(n as nat);
            read_int(s, past_blanks(s, 0)) == Ok::<(nat, int), crate::cursor::ParseError>(
                (n as nat, s.len() as int),
            )
        }),
{
    let s = label_of(n as nat);
    let d = decimal(n as nat);
    lemma_decimal(n as nat);
    let start: int = if n < 10 {
        1
    } else {
        0
    };
    assert(s.subrange(start, s.len() as int) =~= d);
    assert(past_blanks(s, 0) == start) by {
        if n < 10 {
            assert(s[0] == 32u8);
            assert(s[1] == d[0]);
            assert(past_blanks(s, 1) == 1);
        } else {
            assert(s[0] == d[0]);
        }
    }
    assert forall|k: int| start <= k < s.len() implies in_class(ByteClass::Digit, #[trigger] s[k]) by {
        assert(s[k] == d[k - start]);
    }
    lemma_run_to_end(s, start, ByteClass::Digit);
    assert(past_blanks(s, s.len() as int) == s.len());
}

/// What stands between "panicked" and the message in a panic's header: ` at `
/// where there is a message, nothing where there is none.
pub fn message_separator(has_message: bool) -> (r: Vec<u8>)
    ensures
        r@ == (if has_message {
            seq![32u8, 97u8, 116u8, 32u8]
        } else {
            Seq::empty()
        }),
{
    if has_message {
        let r: Vec<u8> = vec![32u8, 97u8, 116u8, 32u8];
        assert(r@ =~= seq![32u8, 97u8, 116u8, 32u8]);
        r
    } else {
        Vec::new()
    }
}

pub open spec fn mod_file() -> Seq<u8> {
    seq![109u8, 111u8, 100u8, 46u8, 114u8, 115u8]
}

/// The components of the file path that `s` spells, each as text.
pub uninterp spec fn path_components(s: Seq<u8>) -> Seq<Seq<u8>>;

/// Relies on `std::path::Path::components`: the path is read as UTF-8 (with
/// invalid sequences replaced) and each component is handed back as the
/// text of its `as_os_str`. The result depends on the path alone.
#[verifier::external_body]
fn components_of(file: &Vec<u8>) -> (r: Vec<Vec<u8>>)
    ensures
        views(r@) == path_components(file@),
{
    let text = String::from_utf8_lossy(file);
    let mut r: Vec<Vec<u8>> = Vec::new();
    for c in std::path::Path::new(&*text).components() {
        r.push(c.as_os_str().to_string_lossy().into_owned().into_bytes());
    }
    r
}

/// The name a file is shown with: its last component.
pub open spec fn file_name_of(comps: Seq<Seq<u8>>) -> Seq<u8> {
    if comps.len() > 0 {
        comps.last()
    } else {
        Seq::empty()
    }
}

/// The module that a `mod.rs` file stands for: the component before it.
pub open spec fn module_prefix_of(comps: Seq<Seq<u8>>) -> Option<Seq<u8>> {
    if comps.len() > 1 && comps.last() == mod_file() {
        Some(comps[comps.len() - 2])
    } else {
        None
    }
}

/// Splits a file path into the module that a `mod.rs` stands for, if any,
/// and the file's own name.
pub fn split_file(file: &Vec<u8>) -> (r: (Option<Vec<u8>>, Vec<u8>))
    ensures
        r.1@ == file_name_of(path_components(file@)),
        opt_view(r.0) == module_prefix_of(path_components(file@)),
{
    let comps = components_of(file);
    let n = comps.len();
    if n == 0 {
        return (None, Vec::new());
    }
    let name = copy_bytes(&comps[n - 1]);
    let mvec: Vec<u8> = vec![109u8, 111u8, 100u8, 46u8, 114u8, 115u8];
    assert(mvec@ =~= mod_file());
    if n > 1 && bytes_eq(&name, &mvec) {
        (Some(copy_bytes(&comps[n - 2])), name)
    } else {
        (None, name)
    }
}

} // verus!
