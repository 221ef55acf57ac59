use gay_panic::color::{frame_hue, ColorTable, Hue, ModuleColor};
use gay_panic::cursor::{ByteClass, Cursor, ParseError};
use gay_panic::display::{index_label, message_separator, split_file};
use gay_panic::frame::parse_frame;
use gay_panic::path::{parse_path, CallPath};
use gay_panic::report::{count_lines, render_trace, Outcome};
use gay_panic::{init, init_with, Config};

fn b(s: &str) -> Vec<u8> {
    s.as_bytes().to_vec()
}

fn path_of(s: &str) -> CallPath {
    let mut cur = Cursor::new(b(s));
    parse_path(&mut cur).unwrap()
}

const TRACE: &str = "   0: std::panicking::begin_panic\n             at /rustc/abc/library/std/src/panicking.rs:616:12\n   1: demo::Widget::run\n             at ./src/widget/mod.rs:10:5\n   2: core::ops::function::FnOnce::call_once\n             at /rustc/abc/library/core/src/ops/function.rs:250:5\n   3: demo::main::{{closure}}\n             at ./src/main.rs:3:9\n   4: demo::helper\n             at ./src/main.rs:20:1\n";

#[test]
fn cursor_expect_and_skip() {
    let mut cur = Cursor::new(b("::  x"));
    assert!(cur.check(b"::"));
    assert_eq!(cur.expect(b"::").unwrap(), b("::"));
    assert_eq!(cur.offset(), 4);
    assert_eq!(cur.skip(b"y"), None);
    assert_eq!(cur.offset(), 4);
    assert_eq!(cur.expect(b"y"), Err(ParseError::UnexpectedToken { at: 4 }));
    assert_eq!(cur.skip(b"x"), Some(b("x")));
    assert!(cur.finished());
}

#[test]
fn cursor_expect_at_end_is_unexpected_token() {
    let mut cur = Cursor::new(b(""));
    assert_eq!(cur.expect(b"\n"), Err(ParseError::UnexpectedToken { at: 0 }));
}

#[test]
fn cursor_ident_and_matching() {
    let mut cur = Cursor::new(b("abc_9 rest"));
    assert_eq!(cur.expect_ident().unwrap(), b("abc_9"));
    assert_eq!(cur.skip_matching(ByteClass::Not(b't')), b("res"));
    assert_eq!(cur.skip_matching(ByteClass::Digit), b(""));
    let mut bad = Cursor::new(b("::x"));
    assert_eq!(bad.expect_ident(), Err(ParseError::ExpectedIdentifier { at: 0 }));
}

#[test]
fn cursor_skip_around_nests_same_kind_only() {
    let mut cur = Cursor::new(b("<a<b>{c>}>tail"));
    assert_eq!(cur.skip_around(b'<').unwrap(), b("<a<b>{c>"));
    let mut open = Cursor::new(b("{{x}"));
    assert_eq!(open.skip_around(b'{'), Err(ParseError::UnbalancedDelimiter { at: 4 }));
    assert_eq!(open.offset(), 0);
}

#[test]
fn cursor_parse_int() {
    let mut cur = Cursor::new(b("616:12"));
    assert_eq!(cur.parse_int(), Ok(616));
    let mut empty = Cursor::new(b(":12"));
    assert_eq!(empty.parse_int(), Err(ParseError::MalformedInteger { at: 0 }));
    let mut huge = Cursor::new(b("99999999999999999999999"));
    assert_eq!(huge.parse_int(), Err(ParseError::MalformedInteger { at: 0 }));
    assert_eq!(huge.offset(), 0);
    let mut word = Cursor::new(b("abc"));
    assert_eq!(word.parse_int(), Err(ParseError::MalformedInteger { at: 0 }));
    assert_eq!(word.offset(), 0);
    let mut rest = Cursor::new(b("42:7"));
    assert_eq!(rest.parse_int(), Ok(42));
    assert!(rest.check(b":7"));
}

#[test]
fn one_segment_has_no_scope_or_leaf() {
    let p = path_of("main\n");
    assert_eq!(p.first, b("main"));
    assert_eq!(p.scope, None);
    assert_eq!(p.last, None);
}

#[test]
fn two_segments_have_leaf_only() {
    let p = path_of("mycrate::helper\n");
    assert_eq!(p.first, b("mycrate"));
    assert_eq!(p.scope, None);
    assert_eq!(p.last, Some(b("helper")));
}

#[test]
fn uppercase_middle_segment_is_scope() {
    let p = path_of("mycrate::MyStruct::method\n");
    assert_eq!(p.first, b("mycrate"));
    assert_eq!(p.scope, Some(b("MyStruct")));
    assert_eq!(p.last, Some(b("method")));
}

#[test]
fn closure_leaf_makes_lowercase_scope() {
    let p = path_of("mycrate::helper::{{closure}}\n");
    assert_eq!(p.scope, Some(b("helper")));
    assert_eq!(p.last, Some(b("{{closure}}")));
}

#[test]
fn non_ascii_uppercase_middle_segment_is_scope() {
    let p = CallPath::from_components(vec![b("a"), b("\u{c4}b"), b("c")]);
    assert_eq!(p.scope, Some(b("\u{c4}b")));
    let q = CallPath::from_components(vec![b("a"), b("\u{e4}b"), b("c")]);
    assert_eq!(q.scope, None);
}

#[test]
fn message_separator_follows_message() {
    assert_eq!(message_separator(true), b(" at "));
    assert_eq!(message_separator(false), b(""));
}

#[test]
fn lowercase_middle_segment_is_no_scope() {
    let p = path_of("mycrate::helper::inner\n");
    assert_eq!(p.scope, None);
    assert_eq!(p.last, Some(b("inner")));
}

#[test]
fn generics_and_shims_stay_with_their_segment() {
    let p = path_of("<alloc::boxed::Box<F,A> as core::ops::Fn<Args>>::call\n");
    assert_eq!(p.first, b("<alloc::boxed::Box<F,A> as core::ops::Fn<Args>>"));
    assert_eq!(p.last, Some(b("call")));
    let q = path_of("core::ops::function::FnOnce::call_once{{vtable.shim}}\n");
    assert_eq!(q.scope, Some(b("FnOnce")));
    assert_eq!(q.last, Some(b("call_once{{vtable.shim}}")));
    let r = path_of("alloc::vec::Vec<T>::push\n");
    assert_eq!(r.scope, Some(b("Vec<T>")));
}

#[test]
fn path_needs_line_break() {
    let mut cur = Cursor::new(b("a::b"));
    assert!(matches!(parse_path(&mut cur), Err(ParseError::UnexpectedToken { at: 4 })));
}

#[test]
fn path_parts() {
    let p = path_of("demo::Widget::run\n");
    assert_eq!(p.parts(), vec![b("demo"), b(" :: "), b("Widget"), b("::"), b("run")]);
    let q = path_of("demo::run\n");
    assert_eq!(q.parts(), vec![b("demo"), b(" :: "), b(""), b(""), b("run")]);
    let r = path_of("demo\n");
    assert_eq!(r.parts(), vec![b("demo"), b(""), b(""), b(""), b("")]);
}

#[test]
fn from_components_classifies() {
    let p = CallPath::from_components(vec![b("a"), b("Ty"), b("<impl X>")]);
    assert_eq!(p.first, b("a"));
    assert_eq!(p.scope, Some(b("Ty")));
    assert_eq!(p.last, Some(b("<impl X>")));
}

#[test]
fn frame_with_location() {
    let mut cur = Cursor::new(b("12: demo::main\n      at ./src/main.rs:3:9\n"));
    let f = parse_frame(&mut cur).unwrap();
    assert_eq!(f.index, 12);
    assert_eq!(f.path.last, Some(b("main")));
    let loc = f.location.unwrap();
    assert_eq!(loc.file, b("./src/main.rs"));
    assert_eq!(loc.line, 3);
    assert_eq!(loc.column, 9);
}

#[test]
fn frame_without_location_at_end() {
    let mut cur = Cursor::new(b("7: __libc_start_main\n"));
    let f = parse_frame(&mut cur).unwrap();
    assert_eq!(f.index, 7);
    assert!(f.location.is_none());
    assert!(cur.finished());
}

#[test]
fn frame_bad_index() {
    let mut cur = Cursor::new(b("x: a\n"));
    assert!(matches!(parse_frame(&mut cur), Err(ParseError::MalformedInteger { at: 0 })));
}

#[test]
fn index_label_round_trips() {
    for n in [0usize, 7, 10, 42, 999, usize::MAX] {
        let label = index_label(n);
        let mut cur = Cursor::new(label);
        cur.skip_whitespace();
        assert_eq!(cur.parse_int(), Ok(n));
        assert!(cur.finished());
    }
    assert_eq!(index_label(3), b(" 3"));
    assert_eq!(index_label(42), b("42"));
}

#[test]
fn hue_rises_with_index() {
    let n = 5;
    for i in 0..n - 1 {
        let a = frame_hue(i, n);
        let c = frame_hue(i + 1, n);
        assert!(a.turn_num * c.turn_den < c.turn_num * a.turn_den);
    }
    assert_eq!(frame_hue(0, 0), Hue { turn_num: 0, turn_den: 1 });
    assert_eq!(frame_hue(3, 4), Hue { turn_num: 3, turn_den: 4 });
}

#[test]
fn color_table_round_robin() {
    let mut t = ColorTable::new(&b("demo"));
    assert_eq!(t.color_for(&b("demo")), ModuleColor::BrightYellow);
    assert_eq!(t.color_for(&b("std")), ModuleColor::BrightRed);
    assert_eq!(t.color_for(&b("core")), ModuleColor::Blue);
    assert_eq!(t.color_for(&b("rust_begin_unwind")), ModuleColor::BrightRed);
    let expected = [
        ModuleColor::BrightGreen,
        ModuleColor::BrightCyan,
        ModuleColor::Cyan,
        ModuleColor::BrightBlue,
        ModuleColor::BrightMagenta,
        ModuleColor::BrightGreen,
    ];
    for (i, c) in expected.iter().enumerate() {
        assert_eq!(t.color_for(&format!("m{i}").into_bytes()), *c);
    }
    assert_eq!(t.color_for(&b("m1")), ModuleColor::BrightCyan);
}

#[test]
fn crate_name_overrides_fixed_color() {
    let mut t = ColorTable::new(&b("std"));
    assert_eq!(t.color_for(&b("std")), ModuleColor::BrightYellow);
}

#[test]
fn file_split() {
    assert_eq!(split_file(&b("./src/widget/mod.rs")), (Some(b("widget")), b("mod.rs")));
    assert_eq!(split_file(&b("./src/main.rs")), (None, b("main.rs")));
    assert_eq!(split_file(&b("mod.rs")), (None, b("mod.rs")));
    assert_eq!(split_file(&b("lib.rs")), (None, b("lib.rs")));
    assert_eq!(split_file(&b("a//mod.rs")), (Some(b("a")), b("mod.rs")));
    assert_eq!(split_file(&b("src/./mod.rs")), (Some(b("src")), b("mod.rs")));
    assert_eq!(split_file(&b("src/mod.rs/")), (Some(b("src")), b("mod.rs")));
    assert_eq!(split_file(&b("/rustc/x/library/std/src/rt.rs")), (None, b("rt.rs")));
    assert_eq!(split_file(&b("")), (None, b("")));
}

#[test]
fn lines_are_counted_like_str_lines() {
    assert_eq!(count_lines(&b("")), 0);
    assert_eq!(count_lines(&b("a\nb\n")), 2);
    assert_eq!(count_lines(&b("a\nb")), 2);
    assert_eq!(count_lines(&b(TRACE)), TRACE.lines().count());
}

#[test]
fn full_trace_renders() {
    let r = render_trace(&b(TRACE), &b("gay_panic"));
    assert_eq!(r.outcome, Outcome::Complete);
    assert_eq!(r.frames.len(), 5);
    let idx: Vec<usize> = r.frames.iter().map(|f| f.frame.index).collect();
    assert_eq!(idx, vec![0, 1, 2, 3, 4]);
    for f in &r.frames {
        assert_eq!(f.hue, Hue { turn_num: f.frame.index, turn_den: 5 });
    }
    assert_eq!(r.frames[0].color, Some(ModuleColor::BrightRed));
    assert_eq!(r.frames[1].color, Some(ModuleColor::BrightGreen));
    assert_eq!(r.frames[1].frame.path.scope, Some(b("Widget")));
    assert_eq!(r.frames[2].color, Some(ModuleColor::Blue));
    assert_eq!(r.frames[3].color, Some(ModuleColor::BrightGreen));
    assert_eq!(r.frames[3].frame.path.scope, Some(b("main")));
    assert_eq!(r.frames[4].color, Some(ModuleColor::BrightGreen));
    let loc = r.frames[1].frame.location.as_ref().unwrap();
    assert_eq!(loc.file, b("./src/widget/mod.rs"));
    assert_eq!((loc.line, loc.column), (10, 5));
}

#[test]
fn std_and_core_keep_fixed_colors() {
    let text = "0: std::a\n at x.rs:1:1\n1: other::b\n at y.rs:2:2\n2: core::c\n at z.rs:3:3\n3: std::d\n at x.rs:4:4\n";
    let r = render_trace(&b(text), &b("mine"));
    assert_eq!(r.outcome, Outcome::Complete);
    assert_eq!(r.frames[0].color, Some(ModuleColor::BrightRed));
    assert_eq!(r.frames[1].color, Some(ModuleColor::BrightGreen));
    assert_eq!(r.frames[2].color, Some(ModuleColor::Blue));
    assert_eq!(r.frames[3].color, Some(ModuleColor::BrightRed));
}

#[test]
fn marker_frame_ends_trace() {
    let text = "0: a::b\n at x.rs:1:1\n1: __rust_end_short_backtrace\n";
    let r = render_trace(&b(text), &b("mine"));
    assert_eq!(r.outcome, Outcome::Complete);
    assert_eq!(r.frames.len(), 2);
    assert!(r.frames[1].frame.location.is_none());
    assert_eq!(r.frames[1].color, None);
}

#[test]
fn disabled_trace_has_no_frames() {
    let text = "disabled backtrace; run with `RUST_BACKTRACE=1`";
    let r = render_trace(&b(text), &b("mine"));
    assert_eq!(r.outcome, Outcome::Disabled);
    assert!(r.frames.is_empty());
}

#[test]
fn missing_final_line_break_fails() {
    let text = "0: a::b\n at x.rs:1:1";
    let r = render_trace(&b(text), &b("mine"));
    assert_eq!(r.outcome, Outcome::Failed(ParseError::UnexpectedToken { at: text.len() }));
    assert_eq!(r.frames.len(), 1);
}

#[test]
fn malformed_location_fails() {
    let text = "0: a::b\n at x.rs:one:1\n";
    let r = render_trace(&b(text), &b("mine"));
    assert!(matches!(r.outcome, Outcome::Failed(ParseError::MalformedInteger { .. })));
    assert!(r.frames.is_empty());
}

#[test]
fn handler_configuration() {
    let h = init();
    assert!(!h.forces_capture());
    assert!(!h.chains_previous());
    assert_eq!(Config::default(), Config { call_previous_hook: false, force_capture_backtrace: false });
    let h = init_with(Config { call_previous_hook: true, force_capture_backtrace: true });
    assert!(h.forces_capture());
    assert!(h.chains_previous());
}
