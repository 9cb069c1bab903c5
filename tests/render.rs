use pretty_render::{best, Doc, FmtWrite, IoWrite, Render, RenderAnnotated, StyleStack};
use std::rc::Rc;

fn text(s: &str) -> Doc<u32> {
    Doc::Text(s.to_string())
}

fn cat(l: Doc<u32>, r: Doc<u32>) -> Doc<u32> {
    Doc::Append(Rc::new(l), Rc::new(r))
}

fn group(d: Doc<u32>) -> Doc<u32> {
    Doc::Group(Rc::new(d))
}

fn nest(off: usize, d: Doc<u32>) -> Doc<u32> {
    Doc::Nest(off, Rc::new(d))
}

fn render(doc: &Doc<u32>, width: usize) -> String {
    let mut w = FmtWrite::new(String::new());
    best(doc, width, &mut w).unwrap();
    w.into_inner()
}

fn foo_bar() -> Doc<u32> {
    group(cat(cat(text("foo"), Doc::Space), text("bar")))
}

#[test]
fn group_fits_stays_flat() {
    assert_eq!(render(&foo_bar(), 10), "foo bar");
}

#[test]
fn group_overflow_breaks() {
    assert_eq!(render(&foo_bar(), 5), "foo\nbar");
}

#[test]
fn nest_indents_newline() {
    let doc = cat(text("a"), nest(2, cat(Doc::Newline, text("x"))));
    assert_eq!(render(&doc, 20), "a\n  x");
}

#[test]
fn long_atom_written_whole() {
    assert_eq!(render(&group(text("abcdef")), 3), "abcdef");
}

#[derive(Debug, PartialEq)]
enum Event {
    Text(String),
    Push(u32),
    Pop,
}

struct Recorder {
    events: Vec<Event>,
}

impl Render for Recorder {
    type Error = ();

    fn write_str(&mut self, s: &str) -> Result<usize, ()> {
        self.events.push(Event::Text(s.to_string()));
        Ok(s.len())
    }
}

impl RenderAnnotated<u32> for Recorder {
    fn push_annotation(&mut self, a: &u32) -> Result<(), ()> {
        self.events.push(Event::Push(*a));
        Ok(())
    }

    fn pop_annotation(&mut self) -> Result<(), ()> {
        self.events.push(Event::Pop);
        Ok(())
    }
}

#[test]
fn annotations_nest_and_balance() {
    let inner = Doc::Annotated(2, Rc::new(text("b")));
    let doc = Doc::Annotated(1, Rc::new(cat(text("a"), inner)));
    let mut r = Recorder { events: Vec::new() };
    best(&doc, 80, &mut r).unwrap();
    assert_eq!(
        r.events,
        vec![
            Event::Push(1),
            Event::Text("a".to_string()),
            Event::Push(2),
            Event::Text("b".to_string()),
            Event::Pop,
            Event::Pop,
        ]
    );
}

#[test]
fn directly_nested_annotations_both_close() {
    let doc = Doc::Annotated(1, Rc::new(Doc::Annotated(2, Rc::new(text("x")))));
    let mut r = Recorder { events: Vec::new() };
    best(&doc, 80, &mut r).unwrap();
    assert_eq!(
        r.events,
        vec![Event::Push(1), Event::Push(2), Event::Text("x".to_string()), Event::Pop, Event::Pop]
    );
}

#[test]
fn plain_text_concatenates() {
    let doc = cat(nest(4, cat(text("ab"), Doc::Nil)), Doc::Annotated(7, Rc::new(text("cd"))));
    assert_eq!(render(&doc, 1), "abcd");
    assert_eq!(render(&doc, 100), "abcd");
}

#[test]
fn nested_indentation_adds_and_restores() {
    let inner = nest(3, cat(Doc::Newline, text("y")));
    let doc = cat(nest(2, cat(cat(Doc::Newline, text("x")), inner)), cat(Doc::Newline, text("z")));
    assert_eq!(render(&doc, 80), "\n  x\n     y\nz");
}

#[test]
fn flat_space_advances_column() {
    // "a b" takes three columns, so " cd" no longer fits in a width of five.
    let doc = cat(
        group(cat(cat(text("a"), Doc::Space), text("b"))),
        group(cat(Doc::Space, text("cd"))),
    );
    assert_eq!(render(&doc, 5), "a b\ncd");
    assert_eq!(render(&doc, 6), "a b cd");
}

#[test]
fn following_text_counts_toward_fit() {
    let doc = cat(group(cat(cat(text("ab"), Doc::Space), text("cd"))), text("efgh"));
    assert_eq!(render(&doc, 8), "ab\ncdefgh");
    assert_eq!(render(&doc, 9), "ab cdefgh");
}

#[test]
fn flat_alt_picks_by_mode() {
    let alt = Doc::FlatAlt(Rc::new(text(",")), Rc::new(Doc::Nil));
    let doc = group(cat(cat(text("xx"), Doc::Space), cat(text("yy"), alt)));
    assert_eq!(render(&doc, 10), "xx yy");
    assert_eq!(render(&doc, 3), "xx\nyy,");
}

#[test]
fn union_takes_first_when_it_fits() {
    let doc = Doc::Union(Rc::new(text("long one")), Rc::new(text("short")));
    assert_eq!(render(&doc, 8), "long one");
    assert_eq!(render(&doc, 7), "short");
}

#[test]
fn hard_newline_in_group_forces_break() {
    let doc = group(cat(cat(text("a"), Doc::Space), cat(Doc::Newline, text("b"))));
    assert_eq!(render(&doc, 80), "a\n\nb");
}

#[test]
fn same_document_same_output() {
    let doc = foo_bar();
    assert_eq!(render(&doc, 5), render(&doc, 5));
    let mut w = IoWrite::new(Vec::new());
    best(&doc, 5, &mut w).unwrap();
    let bytes = w.into_inner();
    assert_eq!(bytes, render(&doc, 5).into_bytes());
}

#[test]
fn empty_document_writes_nothing() {
    let doc: Doc<u32> = Doc::Nil;
    assert_eq!(render(&doc, 0), "");
}

#[test]
fn deep_indentation_is_written_in_full() {
    let doc = nest(40, cat(text("a"), cat(Doc::Newline, text("b"))));
    let expected = format!("a\n{}b", " ".repeat(40));
    assert_eq!(render(&doc, 80), expected);
}

struct Failing {
    budget: usize,
}

impl Render for Failing {
    type Error = String;

    fn write_str(&mut self, s: &str) -> Result<usize, String> {
        if self.budget == 0 {
            return Err("full".to_string());
        }
        self.budget -= 1;
        Ok(s.len())
    }
}

impl RenderAnnotated<u32> for Failing {
    fn push_annotation(&mut self, _: &u32) -> Result<(), String> {
        Ok(())
    }

    fn pop_annotation(&mut self) -> Result<(), String> {
        Err("no pop".to_string())
    }
}

#[test]
fn sink_error_aborts_render() {
    let doc = cat(text("a"), cat(text("b"), text("c")));
    let mut sink = Failing { budget: 2 };
    assert_eq!(best(&doc, 80, &mut sink), Err("full".to_string()));
    let annotated = Doc::Annotated(3, Rc::new(text("x")));
    let mut sink = Failing { budget: 5 };
    assert_eq!(best(&annotated, 80, &mut sink), Err("no pop".to_string()));
}

struct Trickle {
    out: String,
}

impl Render for Trickle {
    type Error = ();

    fn write_str(&mut self, s: &str) -> Result<usize, ()> {
        let c = s.chars().next().unwrap();
        self.out.push(c);
        Ok(c.len_utf8())
    }
}

impl RenderAnnotated<u32> for Trickle {
    fn push_annotation(&mut self, _: &u32) -> Result<(), ()> {
        Ok(())
    }

    fn pop_annotation(&mut self) -> Result<(), ()> {
        Ok(())
    }
}

#[test]
fn partial_writes_are_completed() {
    let doc = group(cat(cat(text("héllo"), Doc::Space), nest(3, cat(Doc::Newline, text("wörld")))));
    let mut sink = Trickle { out: String::new() };
    best(&doc, 4, &mut sink).unwrap();
    assert_eq!(sink.out, "héllo\n\nwörld".replace("\nw", "\n   w"));
}

#[test]
fn io_sink_ignores_annotations() {
    let doc = Doc::Annotated(9, Rc::new(cat(text("p"), Doc::Annotated(8, Rc::new(text("q"))))));
    let mut w = IoWrite::new(Vec::new());
    best(&doc, 80, &mut w).unwrap();
    assert_eq!(w.into_inner(), b"pq".to_vec());
}

#[test]
fn style_stack_restores_enclosing_style() {
    let mut styles: StyleStack<u32> = StyleStack::new();
    assert_eq!(styles.current(), None);
    styles.push(1);
    styles.push(2);
    assert_eq!(styles.current(), Some(&2));
    styles.pop();
    assert_eq!(styles.current(), Some(&1));
    styles.pop();
    assert_eq!(styles.current(), None);
    styles.pop();
    assert_eq!(styles.current(), None);
}

#[test]
fn buffers_keep_what_they_held() {
    let mut w = FmtWrite::new("> ".to_string());
    best(&foo_bar(), 5, &mut w).unwrap();
    assert_eq!(w.into_inner(), "> foo\nbar");
    let mut v = IoWrite::new(vec![b'#']);
    best(&text("é"), 5, &mut v).unwrap();
    assert_eq!(v.into_inner(), "#é".as_bytes().to_vec());
}

#[test]
fn whole_chunk_is_taken() {
    let mut w = FmtWrite::new(String::new());
    assert_eq!(w.write_str("héllo"), Ok(6));
    assert_eq!(w.write_str(""), Ok(0));
    assert_eq!(w.into_inner(), "héllo");
    let mut v = IoWrite::new(Vec::new());
    assert_eq!(v.write_str("abc").unwrap(), 3);
    assert!(RenderAnnotated::<u32>::push_annotation(&mut v, &1).is_ok());
    assert!(RenderAnnotated::<u32>::pop_annotation(&mut v).is_ok());
    assert_eq!(v.into_inner(), b"abc".to_vec());
}

#[test]
fn shared_fragment_renders_at_each_use() {
    let item = Rc::new(text("xy"));
    let doc = Doc::Append(
        item.clone(),
        Rc::new(Doc::Nest(2, Rc::new(Doc::Append(Rc::new(Doc::Newline), item)))),
    );
    assert_eq!(render(&doc, 80), "xy\n  xy");
}
