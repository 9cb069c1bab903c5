use vstd::prelude::*;
use crate::doc::{Doc, size, text_bytes, weight};
use crate::render::{Mark, Render, RenderAnnotated};
use vstd::string::StringSliceAdditionalSpecFns;
use vstd::utf8::is_char_boundary;

verus! {

/// Whether the break points of a span are laid out as spaces or as line breaks.
#[derive(Clone, Copy, Debug, PartialEq, Eq, Structural)]
pub enum Mode {
    Break,
    Flat,
}

/// One unit of laid-out output.
pub enum Out<A> {
    /// The bytes of a text.
    Text(Seq<u8>),
    /// One space.
    Space,
    /// A line break followed by that many spaces of indentation.
    Newline(nat),
    /// The start of an annotated span.
    Push(A),
    /// The end of the innermost open annotated span.
    Pop,
}

/// A pending piece of work: indentation, mode and the document to lay out.
pub type Cmd<'a, A> = (usize, Mode, &'a Doc<A>);

/// Total number of nodes of the documents on a stack of documents.
pub open spec fn docs_size<'a, A>(f: Seq<&'a Doc<A>>) -> nat
    decreases f.len(),
{
    if f.len() == 0 { 0 } else { docs_size(f.drop_last()) + size(*f.last()) }
}

/// Total number of nodes of the documents on a work stack.
pub open spec fn stack_size<'a, A>(s: Seq<Cmd<'a, A>>) -> nat
    decreases s.len(),
{
    if s.len() == 0 { 0 } else { stack_size(s.drop_last()) + size(*s.last().2) }
}

/// Whether a hard line break met in the given simulated mode ends the probe with success.
pub open spec fn newline_fits(always: bool, mode: Mode) -> bool {
    always || mode == Mode::Break
}

/// The fitting probe: whether the documents `f` (laid out in `mode`), and after them
/// the pending work `b` (each item in its own mode), fit in `rem` columns up to the
/// next line break.
pub open spec fn fits<'a, A>(
    rem: int,
    f: Seq<&'a Doc<A>>,
    b: Seq<Cmd<'a, A>>,
    mode: Mode,
    always: bool,
) -> bool
    decreases b.len(), docs_size(f),
    via fits_decreases::<A>
{
    if f.len() == 0 {
        if b.len() == 0 {
            true
        } else {
            fits(rem, seq![b.last().2], b.drop_last(), b.last().1, always)
        }
    } else {
        let d = f.last();
        let g = f.drop_last();
        match *d {
            Doc::Nil => fits(rem, g, b, mode, always),
            Doc::Append(l, r) => fits(rem, g.push(&*r).push(&*l), b, mode, always),
            Doc::Space => if mode == Mode::Flat {
                rem - 1 >= 0 && fits(rem - 1, g, b, mode, always)
            } else {
                true
            },
            Doc::Newline => newline_fits(always, mode),
            Doc::Text(s) => {
                let n = text_bytes(s@).len();
                rem - n >= 0 && fits(rem - n, g, b, mode, always)
            },
            Doc::FlatAlt(x, y) => fits(
                rem,
                g.push(if mode == Mode::Break { &*x } else { &*y }),
                b,
                mode,
                always,
            ),
            Doc::Nest(_, i) => fits(rem, g.push(&*i), b, mode, always),
            Doc::Group(i) => fits(rem, g.push(&*i), b, mode, always),
            Doc::Annotated(_, i) => fits(rem, g.push(&*i), b, mode, always),
            Doc::Union(_, i) => fits(rem, g.push(&*i), b, mode, always),
        }
    }
}

/// Pushing a document adds its size.
pub proof fn lemma_docs_size_push<'a, A>(g: Seq<&'a Doc<A>>, x: &'a Doc<A>)
    ensures
        docs_size(g.push(x)) == docs_size(g) + size(*x),
{
    assert(g.push(x).drop_last() =~= g);
}

#[via_fn]
proof fn fits_decreases<'a, A>(
    rem: int,
    f: Seq<&'a Doc<A>>,
    b: Seq<Cmd<'a, A>>,
    mode: Mode,
    always: bool,
) {
    if f.len() > 0 {
        let g = f.drop_last();
        match *f.last() {
            Doc::Append(l, r) => {
                lemma_docs_size_push(g, &*r);
                lemma_docs_size_push(g.push(&*r), &*l);
            },
            Doc::FlatAlt(x, y) => {
                lemma_docs_size_push(g, &*x);
                lemma_docs_size_push(g, &*y);
            },
            Doc::Nest(_, i) => lemma_docs_size_push(g, &*i),
            Doc::Group(i) => lemma_docs_size_push(g, &*i),
            Doc::Annotated(_, i) => lemma_docs_size_push(g, &*i),
            Doc::Union(_, i) => lemma_docs_size_push(g, &*i),
            _ => {},
        }
    } else if b.len() > 0 {
        lemma_docs_size_push(Seq::empty(), b.last().2);
        assert(seq![b.last().2] =~= Seq::<&'a Doc<A>>::empty().push(b.last().2));
    }
}

/// Total weight of the documents on a work stack.
pub open spec fn stack_weight<'a, A>(s: Seq<Cmd<'a, A>>) -> nat
    decreases s.len(),
{
    if s.len() == 0 { 0 } else { stack_weight(s.drop_last()) + weight(*s.last().2) }
}

/// Each item's indentation, plus its own weight and that of every item below it,
/// stays within `limit`.
pub open spec fn indents_within<'a, A>(s: Seq<Cmd<'a, A>>, limit: int) -> bool
    decreases s.len(),
{
    s.len() == 0 || (indents_within(s.drop_last(), limit) && s.last().0 + weight(*s.last().2)
        + stack_weight(s.drop_last()) <= limit)
}

/// The output of the render loop from a state: column `pos`, work stack `s` (its
/// last item is processed next), and `lv`, the stack sizes at which the open
/// annotated spans end.
pub open spec fn run<'a, A>(w: int, pos: int, s: Seq<Cmd<'a, A>>, lv: Seq<usize>) -> Seq<Out<A>>
    decreases stack_size(s), lv.len(), 0nat,
    via run_decreases::<A>
{
    if s.len() == 0 {
        seq![]
    } else {
        let ind = s.last().0;
        let mode = s.last().1;
        let rest = s.drop_last();
        match *s.last().2 {
            Doc::Nil => close(w, pos, rest, lv),
            Doc::Append(l, r) => run(w, pos, rest.push((ind, mode, &*r)).push((ind, mode, &*l)), lv),
            Doc::FlatAlt(x, y) => run(
                w,
                pos,
                rest.push((ind, mode, if mode == Mode::Break { &*x } else { &*y })),
                lv,
            ),
            Doc::Group(i) => {
                let m = if mode == Mode::Break && !fits(w - pos, seq![&*i], rest, Mode::Flat, false) {
                    Mode::Break
                } else {
                    Mode::Flat
                };
                run(w, pos, rest.push((ind, m, &*i)), lv)
            },
            Doc::Nest(off, i) => run(w, pos, rest.push(((ind + off) as usize, mode, &*i)), lv),
            Doc::Space => if mode == Mode::Flat {
                seq![Out::Space] + close(w, pos + 1, rest, lv)
            } else {
                seq![Out::Newline(ind as nat)] + close(w, ind as int, rest, lv)
            },
            Doc::Newline => seq![Out::Newline(ind as nat)] + close(w, ind as int, rest, lv),
            Doc::Text(t) => seq![Out::Text(text_bytes(t@))] + close(
                w,
                pos + text_bytes(t@).len(),
                rest,
                lv,
            ),
            Doc::Annotated(a, i) => seq![Out::Push(a)] + run(
                w,
                pos,
                rest.push((ind, mode, &*i)),
                lv.push(rest.len() as usize),
            ),
            Doc::Union(l, r) => run(
                w,
                pos,
                rest.push(
                    (ind, mode, if fits(w - pos, seq![&*l], rest, Mode::Flat, true) { &*l } else { &*r }),
                ),
                lv,
            ),
        }
    }
}

/// Closes every annotated span that ends at the current stack size, then goes on
/// with the render loop.
pub open spec fn close<'a, A>(w: int, pos: int, s: Seq<Cmd<'a, A>>, lv: Seq<usize>) -> Seq<Out<A>>
    decreases stack_size(s), lv.len(), 1nat,
{
    if lv.len() > 0 && lv.last() == s.len() {
        seq![Out::Pop] + close(w, pos, s, lv.drop_last())
    } else {
        run(w, pos, s, lv)
    }
}

/// The output of laying out `doc` at line width `width`.
pub open spec fn layout<'a, A>(doc: &'a Doc<A>, width: usize) -> Seq<Out<A>> {
    run(width as int, 0, seq![(0usize, Mode::Break, doc)], seq![])
}

/// The bytes that one unit of output is written as.
pub open spec fn out_bytes<A>(o: Out<A>) -> Seq<u8> {
    match o {
        Out::Text(b) => b,
        Out::Space => seq![32u8],
        Out::Newline(n) => seq![10u8] + Seq::new(n, |_i: int| 32u8),
        _ => seq![],
    }
}

/// The bytes that a sequence of output units is written as.
pub open spec fn bytes_of<A>(os: Seq<Out<A>>) -> Seq<u8>
    decreases os.len(),
{
    if os.len() == 0 { seq![] } else { bytes_of(os.drop_last()) + out_bytes(os.last()) }
}

/// The annotation calls that a unit of output makes.
pub open spec fn out_marks<A>(o: Out<A>) -> Seq<Mark> {
    match o {
        Out::Push(_) => seq![Mark::Push],
        Out::Pop => seq![Mark::Pop],
        _ => seq![],
    }
}

/// The annotation calls that a sequence of output units makes.
pub open spec fn marks_of<A>(os: Seq<Out<A>>) -> Seq<Mark>
    decreases os.len(),
{
    if os.len() == 0 { seq![] } else { marks_of(os.drop_last()) + out_marks(os.last()) }
}

/// The annotation calls that a unit of output makes, placed at byte offset `at`.
pub open spec fn out_placed<A>(o: Out<A>, at: nat) -> Seq<(nat, Mark)> {
    match o {
        Out::Push(_) => seq![(at, Mark::Push)],
        Out::Pop => seq![(at, Mark::Pop)],
        _ => seq![],
    }
}

/// The annotation calls that a sequence of output units makes, each with the
/// byte offset at which it comes when the output starts at offset `base`.
pub open spec fn placed<A>(os: Seq<Out<A>>, base: nat) -> Seq<(nat, Mark)>
    decreases os.len(),
{
    if os.len() == 0 {
        seq![]
    } else {
        placed(os.drop_last(), base) + out_placed(os.last(), base + bytes_of(os.drop_last()).len())
    }
}

/// Pushing onto a work stack adds the item's size and weight.
pub proof fn lemma_stack_push<'a, A>(s: Seq<Cmd<'a, A>>, x: Cmd<'a, A>)
    ensures
        stack_size(s.push(x)) == stack_size(s) + size(*x.2),
        stack_weight(s.push(x)) == stack_weight(s) + weight(*x.2),
        indents_within(s.push(x), weight_limit()) == (indents_within(s, weight_limit())
            && x.0 + weight(*x.2) + stack_weight(s) <= weight_limit()),
{
    assert(s.push(x).drop_last() =~= s);
}

/// The largest weight a document may have: its columns must fit in `usize`.
pub open spec fn weight_limit() -> int {
    usize::MAX as int
}

/// Emitting one more unit of output appends its bytes and annotation calls.
pub proof fn lemma_emit<A>(os: Seq<Out<A>>, o: Out<A>)
    ensures
        bytes_of(os.push(o)) == bytes_of(os) + out_bytes(o),
        marks_of(os.push(o)) == marks_of(os) + out_marks(o),
        forall|base: nat| #[trigger] placed(os.push(o), base) == placed(os, base) + out_placed(o, base + bytes_of(os).len()),
{
    assert(os.push(o).drop_last() =~= os);
}

#[via_fn]
proof fn run_decreases<'a, A>(w: int, pos: int, s: Seq<Cmd<'a, A>>, lv: Seq<usize>) {
    if s.len() > 0 {
        let ind = s.last().0;
        let mode = s.last().1;
        let rest = s.drop_last();
        match *s.last().2 {
            Doc::Append(l, r) => {
                lemma_stack_push(rest, (ind, mode, &*r));
                lemma_stack_push(rest.push((ind, mode, &*r)), (ind, mode, &*l));
            },
            Doc::FlatAlt(x, y) => {
                lemma_stack_push(rest, (ind, mode, &*x));
                lemma_stack_push(rest, (ind, mode, &*y));
            },
            Doc::Group(i) => {
                lemma_stack_push(rest, (ind, Mode::Flat, &*i));
                lemma_stack_push(rest, (ind, Mode::Break, &*i));
            },
            Doc::Nest(off, i) => lemma_stack_push(rest, ((ind + off) as usize, mode, &*i)),
            Doc::Annotated(_, i) => lemma_stack_push(rest, (ind, mode, &*i)),
            Doc::Union(l, r) => {
                lemma_stack_push(rest, (ind, mode, &*l));
                lemma_stack_push(rest, (ind, mode, &*r));
            },
            _ => {},
        }
    }
}

/// Byte length of a text.
fn text_len(t: &String) -> (n: usize)
    ensures
        n == text_bytes(t@).len(),
{
    t.as_str().as_bytes().len()
}

/// The fitting probe: whether `next` laid out flat, followed by the pending work
/// `bcmds` in its own modes, fits in `rem` columns up to the next line break.
/// `fcmds` is scratch space, cleared on entry.
fn fitting<'a, A>(
    next: &'a Doc<A>,
    bcmds: &Vec<Cmd<'a, A>>,
    fcmds: &mut Vec<&'a Doc<A>>,
    start: i128,
    always: bool,
) -> (r: bool)
    requires
        -0x1_0000_0000_0000_0000 <= start <= 0x1_0000_0000_0000_0000,
    ensures
        r == fits(start as int, seq![next], bcmds@, Mode::Flat, always),
{
    let mut bidx: usize = bcmds.len();
    fcmds.clear();
    fcmds.push(next);
    let mut mode = Mode::Flat;
    let mut rem: i128 = start;
    assert(bcmds@.subrange(0, bidx as int) =~= bcmds@);
    assert(fcmds@ =~= seq![next]);
    loop
        invariant
            bidx <= bcmds.len(),
            -0x1_0000_0000_0000_0000 <= rem <= 0x1_0000_0000_0000_0000,
            fits(rem as int, fcmds@, bcmds@.subrange(0, bidx as int), mode, always)
                == fits(start as int, seq![next], bcmds@, Mode::Flat, always),
        decreases bidx, docs_size(fcmds@),
    {
        let ghost b = bcmds@.subrange(0, bidx as int);
        let ghost f = fcmds@;
        match fcmds.pop() {
            None => {
                if bidx == 0 {
                    return true;
                }
                bidx = bidx - 1;
                mode = bcmds[bidx].1;
                fcmds.push(bcmds[bidx].2);
                assert(b.drop_last() =~= bcmds@.subrange(0, bidx as int));
                assert(fcmds@ =~= seq![b.last().2]);
            },
            Some(doc) => {
                assert(f.drop_last() =~= fcmds@);
                match doc {
                    Doc::Nil => {},
                    Doc::Append(l, r) => {
                        proof { lemma_docs_size_push(fcmds@, &**r); }
                        fcmds.push(&**r);
                        proof { lemma_docs_size_push(fcmds@, &**l); }
                        fcmds.push(&**l);
                    },
                    Doc::Space => {
                        if mode == Mode::Flat {
                            rem = rem - 1;
                            if rem < 0 {
                                return false;
                            }
                        } else {
                            return true;
                        }
                    },
                    Doc::Newline => {
                        return always || mode == Mode::Break;
                    },
                    Doc::Text(t) => {
                        rem = rem - text_len(t) as i128;
                        if rem < 0 {
                            return false;
                        }
                    },
                    Doc::FlatAlt(x, y) => {
                        let d: &Doc<A> = if mode == Mode::Break { &**x } else { &**y };
                        proof { lemma_docs_size_push(fcmds@, d); }
                        fcmds.push(d);
                    },
                    Doc::Nest(_, i) => {
                        proof { lemma_docs_size_push(fcmds@, &**i); }
                        fcmds.push(&**i);
                    },
                    Doc::Group(i) => {
                        proof { lemma_docs_size_push(fcmds@, &**i); }
                        fcmds.push(&**i);
                    },
                    Doc::Annotated(_, i) => {
                        proof { lemma_docs_size_push(fcmds@, &**i); }
                        fcmds.push(&**i);
                    },
                    Doc::Union(_, i) => {
                        proof { lemma_docs_size_push(fcmds@, &**i); }
                        fcmds.push(&**i);
                    },
                }
            },
        }
    }
}

/// The bytes of the one-character literals that the loop writes.
proof fn lemma_literal_bytes()
    ensures
        " ".spec_bytes() == seq![32u8],
        "\n".spec_bytes() == seq![10u8],
{
    reveal_strlit(" ");
    reveal_strlit("\n");
    vstd::utf8::is_ascii_chars_encode_utf8(" "@);
    vstd::utf8::is_ascii_chars_encode_utf8("\n"@);
    assert(" ".spec_bytes() =~= seq![32u8]);
    assert("\n".spec_bytes() =~= seq![10u8]);
}

/// Emitting one unit of output after `emitted`, with `rest` still to come.
proof fn lemma_step<A>(emitted: Seq<Out<A>>, o: Out<A>, rest: Seq<Out<A>>)
    ensures
        emitted + (seq![o] + rest) == emitted.push(o) + rest,
        bytes_of(emitted.push(o)) == bytes_of(emitted) + out_bytes(o),
        marks_of(emitted.push(o)) == marks_of(emitted) + out_marks(o),
        forall|base: nat| #[trigger] placed(emitted.push(o), base) == placed(emitted, base) + out_placed(o, base + bytes_of(emitted).len()),
{
    assert(emitted + (seq![o] + rest) =~= emitted.push(o) + rest);
    lemma_emit(emitted, o);
}

/// The bytes of a run of sixteen spaces, and where it may be cut.
proof fn lemma_spaces_bytes()
    ensures
        "                ".spec_bytes() == Seq::new(16, |_i: int| 32u8),
        forall|k: int| 0 <= k <= 16 ==> is_char_boundary("                ".spec_bytes(), k),
{
    reveal_strlit("                ");
    vstd::utf8::is_ascii_chars_encode_utf8("                "@);
    let b = "                ".spec_bytes();
    assert(b =~= Seq::new(16, |_i: int| 32u8));
    vstd::utf8::encode_utf8_valid_utf8("                "@);
    vstd::utf8::is_char_boundary_start_end_of_seq(b);
    assert forall|k: int| 0 <= k <= 16 implies is_char_boundary(b, k) by {
        if k < 16 {
            vstd::utf8::is_char_boundary_iff_not_is_continuation_byte(b, k);
        }
    }
}

/// Whether `after` is `before` followed by a prefix of `full`.
pub open spec fn prefix_added<T>(before: Seq<T>, after: Seq<T>, full: Seq<T>) -> bool {
    exists|k: int| 0 <= k <= full.len() && after == before + full.subrange(0, k)
}

/// Writes `n` spaces, up to sixteen at a time.
fn write_spaces<W: ?Sized + Render>(n: usize, out: &mut W) -> (r: Result<(), W::Error>)
    ensures
        r is Ok ==> final(out).written() == old(out).written() + Seq::new(n as nat, |_i: int| 32u8),
        r is Err ==> prefix_added(old(out).written(), final(out).written(), Seq::new(n as nat, |_i: int| 32u8)),
        final(out).marks() == old(out).marks(),
        old(out).infallible() ==> r is Ok && final(out).infallible(),
{
    let mut i: usize = 0;
    let ghost full = Seq::new(n as nat, |_i: int| 32u8);
    proof { lemma_spaces_bytes(); }
    assert(old(out).written() =~= old(out).written() + Seq::new(0, |_i: int| 32u8));
    while i < n
        invariant
            i <= n,
            full == Seq::new(n as nat, |_i: int| 32u8),
            out.written() == old(out).written() + Seq::new(i as nat, |_i: int| 32u8),
            out.marks() == old(out).marks(),
            old(out).infallible() ==> out.infallible(),
            "                ".spec_bytes() == Seq::new(16, |_i: int| 32u8),
            forall|k: int| 0 <= k <= 16 ==> is_char_boundary("                ".spec_bytes(), k),
        decreases n - i,
    {
        let k: usize = if n - i < 16 { n - i } else { 16 };
        let (chunk, _) = "                ".split_at(k);
        let ghost before = out.written();
        match out.write_str_all(chunk) {
            Ok(()) => {},
            Err(e) => {
                proof {
                    let j = choose|j: int|
                        0 <= j <= chunk.spec_bytes().len() && out.written() == before
                            + chunk.spec_bytes().subrange(0, j);
                    assert(out.written() =~= old(out).written() + full.subrange(0, i + j));
                }
                return Err(e);
            },
        }
        assert(Seq::new(i as nat, |_i: int| 32u8) + chunk.spec_bytes() =~= Seq::new(
            (i + k) as nat,
            |_i: int| 32u8,
        ));
        i = i + k;
    }
    Ok(())
}

/// Writes a line break followed by `ind` spaces.
fn write_newline<W: ?Sized + Render>(ind: usize, out: &mut W) -> (r: Result<(), W::Error>)
    ensures
        r is Ok ==> final(out).written() == old(out).written() + out_bytes(Out::<()>::Newline(ind as nat)),
        r is Err ==> prefix_added(old(out).written(), final(out).written(), out_bytes(Out::<()>::Newline(ind as nat))),
        final(out).marks() == old(out).marks(),
        old(out).infallible() ==> r is Ok && final(out).infallible(),
{
    let ghost full = out_bytes(Out::<()>::Newline(ind as nat));
    let ghost spaces = Seq::new(ind as nat, |_i: int| 32u8);
    proof { lemma_literal_bytes(); }
    match out.write_str_all("\n") {
        Ok(()) => {},
        Err(e) => {
            proof {
                let j = choose|j: int|
                    0 <= j <= 1 && out.written() == old(out).written() + seq![10u8].subrange(0, j);
                assert(out.written() =~= old(out).written() + full.subrange(0, j));
            }
            return Err(e);
        },
    }
    let ghost mid = out.written();
    let r = write_spaces(ind, out);
    assert(old(out).written() + seq![10u8] + spaces =~= old(out).written() + full);
    if r.is_err() {
        proof {
            let j = choose|j: int|
                0 <= j <= spaces.len() && out.written() == mid + spaces.subrange(0, j);
            assert(out.written() =~= old(out).written() + full.subrange(0, 1 + j));
        }
    }
    r
}

/// Where a sink stops after `emitted`, partway through the bytes of `o`: what it
/// holds is a prefix of the whole layout `total`.
proof fn lemma_stop_within<A>(
    start: Seq<u8>,
    mstart: Seq<(nat, Mark)>,
    emitted: Seq<Out<A>>,
    o: Out<A>,
    rest: Seq<Out<A>>,
    total: Seq<Out<A>>,
    now: Seq<u8>,
    mnow: Seq<(nat, Mark)>,
)
    requires
        total == emitted + (seq![o] + rest),
        prefix_added(start + bytes_of(emitted), now, out_bytes(o)),
        mnow == mstart + placed(emitted, start.len()),
    ensures
        prefix_added(start, now, bytes_of(total)),
        prefix_added(mstart, mnow, placed(total, start.len())),
        total.len() > 0,
{
    let j = choose|j: int|
        0 <= j <= out_bytes(o).len() && now == start + bytes_of(emitted) + out_bytes(o).subrange(0, j);
    lemma_concat(emitted, seq![o] + rest);
    lemma_cons(o, rest);
    assert(total.len() == emitted.len() + 1 + rest.len());
    let k = bytes_of(emitted).len() + j;
    assert(now =~= start + bytes_of(total).subrange(0, k));
    assert(mnow =~= mstart + placed(total, start.len()).subrange(0, placed(emitted, start.len()).len() as int));
}

/// The bytes and annotation calls of two stretches of output, one after the other.
pub proof fn lemma_concat<A>(a: Seq<Out<A>>, b: Seq<Out<A>>)
    ensures
        bytes_of(a + b) == bytes_of(a) + bytes_of(b),
        marks_of(a + b) == marks_of(a) + marks_of(b),
        forall|base: nat| #[trigger] placed(a + b, base) == placed(a, base) + placed(b, base + bytes_of(a).len()),
    decreases b.len(),
{
    if b.len() == 0 {
        assert(a + b =~= a);
        assert(bytes_of(a) + bytes_of(b) =~= bytes_of(a));
        assert(marks_of(a) + marks_of(b) =~= marks_of(a));
        assert forall|base: nat| #[trigger] placed(a + b, base) == placed(a, base) + placed(b, base + bytes_of(a).len()) by {
            assert(placed(a, base) + placed(b, base + bytes_of(a).len()) =~= placed(a, base));
        }
    } else {
        assert((a + b).drop_last() =~= a + b.drop_last());
        lemma_concat(a, b.drop_last());
        assert(bytes_of(a + b) =~= bytes_of(a) + bytes_of(b));
        assert(marks_of(a + b) =~= marks_of(a) + marks_of(b));
        assert forall|base: nat| #[trigger] placed(a + b, base) == placed(a, base) + placed(b, base + bytes_of(a).len()) by {
            let bl = b.drop_last();
            assert(placed(a + bl, base) == placed(a, base) + placed(bl, base + bytes_of(a).len()));
            assert(bytes_of(a + bl).len() == bytes_of(a).len() + bytes_of(bl).len());
            assert(placed(a + b, base) == placed(a + bl, base) + out_placed(b.last(), base + bytes_of(a + bl).len()));
            assert(placed(b, base + bytes_of(a).len()) == placed(bl, base + bytes_of(a).len()) + out_placed(
                b.last(),
                base + bytes_of(a).len() + bytes_of(bl).len(),
            ));
            assert(placed(a + b, base) =~= placed(a, base) + placed(b, base + bytes_of(a).len()));
        }
    }
}

/// The bytes and annotation calls of one unit of output followed by more.
pub proof fn lemma_cons<A>(o: Out<A>, b: Seq<Out<A>>)
    ensures
        bytes_of(seq![o] + b) == out_bytes(o) + bytes_of(b),
        marks_of(seq![o] + b) == out_marks(o) + marks_of(b),
        forall|base: nat| #[trigger] placed(seq![o] + b, base) == out_placed(o, base) + placed(b, base + out_bytes(o).len()),
{
    lemma_concat(seq![o], b);
    lemma_emit(Seq::<Out<A>>::empty(), o);
    assert(Seq::<Out<A>>::empty().push(o) =~= seq![o]);
    assert forall|base: nat| #[trigger] placed(seq![o] + b, base) == out_placed(o, base) + placed(b, base + out_bytes(o).len()) by {
        assert(placed(Seq::<Out<A>>::empty(), base) + out_placed(o, base + bytes_of(Seq::<Out<A>>::empty()).len()) =~= out_placed(o, base));
        assert(bytes_of(seq![o]) == out_bytes(o));
    }
    assert(bytes_of(Seq::<Out<A>>::empty()) + out_bytes(o) =~= out_bytes(o));
    assert(marks_of(Seq::<Out<A>>::empty()) + out_marks(o) =~= out_marks(o));
}

/// Lays `doc` out at line width `width` and writes it to `out`, stopping at the
/// first error of the sink.
pub fn best<'a, W, A>(doc: &'a Doc<A>, width: usize, out: &mut W) -> (r: Result<(), W::Error>)
    where
        W: ?Sized + RenderAnnotated<A>,
    requires
        weight(*doc) <= weight_limit(),
    ensures
        r is Ok ==> final(out).written() == old(out).written() + bytes_of(layout(doc, width))
            && final(out).marks() == old(out).marks() + placed(layout(doc, width), old(out).written().len()),
        r is Err ==> prefix_added(old(out).written(), final(out).written(), bytes_of(layout(doc, width)))
            && prefix_added(old(out).marks(), final(out).marks(), placed(layout(doc, width), old(out).written().len())),
        old(out).infallible() ==> r is Ok,
        layout(doc, width).len() == 0 ==> r is Ok && final(out).written() == old(out).written()
            && final(out).marks() == old(out).marks(),
{
    let ghost total = layout(doc, width);
    let ghost w = width as int;
    let mut pos: usize = 0;
    let mut bcmds: Vec<Cmd<'a, A>> = Vec::new();
    bcmds.push((0usize, Mode::Break, doc));
    let mut fcmds: Vec<&'a Doc<A>> = Vec::new();
    let mut levels: Vec<usize> = Vec::new();
    let ghost mut emitted: Seq<Out<A>> = seq![];
    proof {
        lemma_stack_push(Seq::empty(), (0usize, Mode::Break, doc));
        assert(bcmds@ =~= Seq::<Cmd<'a, A>>::empty().push((0usize, Mode::Break, doc)));
        assert(emitted + run(w, pos as int, bcmds@, levels@) =~= total);
        assert(old(out).written() =~= old(out).written() + bytes_of(emitted));
        assert(old(out).marks() =~= old(out).marks() + placed(emitted, old(out).written().len()));
    }
    while bcmds.len() > 0
        invariant
            w == width,
            total == layout(doc, width),
            emitted + run(w, pos as int, bcmds@, levels@) == total,
            out.written() == old(out).written() + bytes_of(emitted),
            out.marks() == old(out).marks() + placed(emitted, old(out).written().len()),
            old(out).infallible() ==> out.infallible(),
            indents_within(bcmds@, weight_limit()),
            pos + stack_weight(bcmds@) <= weight_limit(),
        decreases stack_size(bcmds@),
    {
        let ghost outer = stack_size(bcmds@);
        let ghost whole = bcmds@;
        let mut cmd = bcmds.pop().unwrap();
        assert(whole =~= bcmds@.push(cmd));
        loop
            invariant_except_break
                emitted + run(w, pos as int, bcmds@.push(cmd), levels@) == total,
                indents_within(bcmds@.push(cmd), weight_limit()),
                pos + stack_weight(bcmds@.push(cmd)) <= weight_limit(),
                stack_size(bcmds@.push(cmd)) <= outer,
            invariant
                w == width,
                total == layout(doc, width),
                out.written() == old(out).written() + bytes_of(emitted),
                out.marks() == old(out).marks() + placed(emitted, old(out).written().len()),
                old(out).infallible() ==> out.infallible(),
            old(out).infallible() ==> out.infallible(),
            ensures
                emitted + close(w, pos as int, bcmds@, levels@) == total,
                out.written() == old(out).written() + bytes_of(emitted),
                out.marks() == old(out).marks() + placed(emitted, old(out).written().len()),
                old(out).infallible() ==> out.infallible(),
            old(out).infallible() ==> out.infallible(),
                indents_within(bcmds@, weight_limit()),
                pos + stack_weight(bcmds@) <= weight_limit(),
                stack_size(bcmds@) < outer,
            decreases size(*cmd.2),
        {
            let (ind, mode, d) = cmd;
            proof {
                lemma_stack_push(bcmds@, cmd);
                assert(bcmds@.push(cmd).drop_last() =~= bcmds@);
            }
            match d {
                Doc::Nil => break,
                Doc::Append(l, r) => {
                    proof { lemma_stack_push(bcmds@, (ind, mode, &**r)); }
                    bcmds.push((ind, mode, &**r));
                    cmd = (ind, mode, &**l);
                    proof { lemma_stack_push(bcmds@, cmd); }
                },
                Doc::FlatAlt(x, y) => {
                    cmd = (ind, mode, if mode == Mode::Break { &**x } else { &**y });
                    proof { lemma_stack_push(bcmds@, cmd); }
                },
                Doc::Group(i) => {
                    let m = if mode == Mode::Flat {
                        Mode::Flat
                    } else if fitting(&**i, &bcmds, &mut fcmds, width as i128 - pos as i128, false) {
                        Mode::Flat
                    } else {
                        Mode::Break
                    };
                    cmd = (ind, m, &**i);
                    proof { lemma_stack_push(bcmds@, cmd); }
                },
                Doc::Nest(off, i) => {
                    cmd = (ind + *off, mode, &**i);
                    proof { lemma_stack_push(bcmds@, cmd); }
                },
                Doc::Space => {
                    if mode == Mode::Flat {
                        proof { lemma_literal_bytes(); }
                        match out.write_str_all(" ") {
                            Ok(()) => {},
                            Err(e) => {
                            proof {
                                lemma_stop_within(
                                    old(out).written(),
                                    old(out).marks(),
                                    emitted,
                                    Out::Space,
                                    close(w, pos + 1, bcmds@, levels@),
                                    total,
                                    out.written(),
                                    out.marks(),
                                );
                            }
                            return Err(e);
                        },
                        }
                        proof {
                            lemma_step(emitted, Out::Space, close(w, pos + 1, bcmds@, levels@));
                            emitted = emitted.push(Out::Space);
                        }
                        pos = pos + 1;
                    } else {
                        match write_newline(ind, out) {
                            Ok(()) => {},
                            Err(e) => {
                            proof {
                                assert(out_bytes(Out::<A>::Newline(ind as nat)) == out_bytes(Out::<()>::Newline(ind as nat)));
                                lemma_stop_within(
                                    old(out).written(),
                                    old(out).marks(),
                                    emitted,
                                    Out::<A>::Newline(ind as nat),
                                    close(w, ind as int, bcmds@, levels@),
                                    total,
                                    out.written(),
                                    out.marks(),
                                );
                            }
                            return Err(e);
                        },
                        }
                        proof {
                            let o = Out::<A>::Newline(ind as nat);
                            assert(out_bytes(o) == out_bytes(Out::<()>::Newline(ind as nat)));
                            lemma_step(emitted, o, close(w, ind as int, bcmds@, levels@));
                            emitted = emitted.push(o);
                        }
                        pos = ind;
                    }
                    assert(out.written() =~= old(out).written() + bytes_of(emitted));
                    assert(out.marks() =~= old(out).marks() + placed(emitted, old(out).written().len()));
                    break;
                },
                Doc::Newline => {
                    match write_newline(ind, out) {
                        Ok(()) => {},
                        Err(e) => {
                            proof {
                                assert(out_bytes(Out::<A>::Newline(ind as nat)) == out_bytes(Out::<()>::Newline(ind as nat)));
                                lemma_stop_within(
                                    old(out).written(),
                                    old(out).marks(),
                                    emitted,
                                    Out::<A>::Newline(ind as nat),
                                    close(w, ind as int, bcmds@, levels@),
                                    total,
                                    out.written(),
                                    out.marks(),
                                );
                            }
                            return Err(e);
                        },
                    }
                    proof {
                        let o = Out::<A>::Newline(ind as nat);
                        assert(out_bytes(o) == out_bytes(Out::<()>::Newline(ind as nat)));
                        lemma_step(emitted, o, close(w, ind as int, bcmds@, levels@));
                        emitted = emitted.push(o);
                    }
                    pos = ind;
                    assert(out.written() =~= old(out).written() + bytes_of(emitted));
                    assert(out.marks() =~= old(out).marks() + placed(emitted, old(out).written().len()));
                    break;
                },
                Doc::Text(t) => {
                    match out.write_str_all(t.as_str()) {
                        Ok(()) => {},
                        Err(e) => {
                            proof {
                                lemma_stop_within(
                                    old(out).written(),
                                    old(out).marks(),
                                    emitted,
                                    Out::<A>::Text(text_bytes(t@)),
                                    close(w, pos + text_bytes(t@).len(), bcmds@, levels@),
                                    total,
                                    out.written(),
                                    out.marks(),
                                );
                            }
                            return Err(e);
                        },
                    }
                    let n = text_len(t);
                    proof {
                        let o = Out::<A>::Text(text_bytes(t@));
                        lemma_step(emitted, o, close(w, pos + n, bcmds@, levels@));
                        emitted = emitted.push(o);
                    }
                    pos = pos + n;
                    assert(out.written() =~= old(out).written() + bytes_of(emitted));
                    assert(out.marks() =~= old(out).marks() + placed(emitted, old(out).written().len()));
                    break;
                },
                Doc::Annotated(a, i) => {
                    match out.push_annotation(a) {
                        Ok(()) => {},
                        Err(e) => {
                            proof {
                                assert(out.written() =~= old(out).written() + bytes_of(emitted) + out_bytes(Out::<A>::Push(*a)).subrange(0, 0));
                                lemma_stop_within(
                                    old(out).written(),
                                    old(out).marks(),
                                    emitted,
                                    Out::<A>::Push(*a),
                                    run(w, pos as int, bcmds@.push((ind, mode, &**i)), levels@.push(bcmds.len())),
                                    total,
                                    out.written(),
                                    out.marks(),
                                );
                            }
                            return Err(e);
                        },
                    }
                    proof {
                        let o = Out::<A>::Push(*a);
                        lemma_step(
                            emitted,
                            o,
                            run(w, pos as int, bcmds@.push((ind, mode, &**i)), levels@.push(bcmds.len())),
                        );
                        emitted = emitted.push(o);
                    }
                    assert(out.written() =~= old(out).written() + bytes_of(emitted));
                    assert(out.marks() =~= old(out).marks() + placed(emitted, old(out).written().len()));
                    levels.push(bcmds.len());
                    cmd = (ind, mode, &**i);
                    proof { lemma_stack_push(bcmds@, cmd); }
                },
                Doc::Union(l, r) => {
                    let fits_l = fitting(&**l, &bcmds, &mut fcmds, width as i128 - pos as i128, true);
                    cmd = (ind, mode, if fits_l { &**l } else { &**r });
                    proof { lemma_stack_push(bcmds@, cmd); }
                },
            }
        }
        while levels.len() > 0 && levels[levels.len() - 1] == bcmds.len()
            invariant
                total == layout(doc, width),
                emitted + close(w, pos as int, bcmds@, levels@) == total,
                out.written() == old(out).written() + bytes_of(emitted),
                out.marks() == old(out).marks() + placed(emitted, old(out).written().len()),
                old(out).infallible() ==> out.infallible(),
            old(out).infallible() ==> out.infallible(),
            decreases levels.len(),
        {
            let ghost before = levels@;
            levels.pop();
            assert(before.drop_last() =~= levels@);
            match out.pop_annotation() {
                Ok(()) => {},
                Err(e) => {
                            proof {
                                assert(out.written() =~= old(out).written() + bytes_of(emitted) + out_bytes(Out::<A>::Pop).subrange(0, 0));
                                lemma_stop_within(
                                    old(out).written(),
                                    old(out).marks(),
                                    emitted,
                                    Out::<A>::Pop,
                                    close(w, pos as int, bcmds@, levels@),
                                    total,
                                    out.written(),
                                    out.marks(),
                                );
                            }
                            return Err(e);
                        },
            }
            proof {
                lemma_step(emitted, Out::Pop, close(w, pos as int, bcmds@, levels@));
                emitted = emitted.push(Out::Pop);
            }
            assert(out.written() =~= old(out).written() + bytes_of(emitted));
            assert(out.marks() =~= old(out).marks() + placed(emitted, old(out).written().len()));
        }
    }
    assert(emitted =~= total);
    assert(old(out).written() + bytes_of(Seq::<Out<A>>::empty()) =~= old(out).written());
    assert(old(out).marks() + placed(Seq::<Out<A>>::empty(), old(out).written().len()) =~= old(out).marks());
    Ok(())
}

} // verus!
