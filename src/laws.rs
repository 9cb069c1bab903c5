use vstd::prelude::*;
use crate::doc::{Doc, text_bytes};
use crate::layout::{
    Cmd, Mode, Out, bytes_of, close, docs_size, fits, layout, lemma_docs_size_push, lemma_concat, lemma_cons,
    lemma_stack_push, marks_of, out_marks, out_placed, placed, run, stack_size,
};
use crate::render::Mark;

verus! {

/// Columns that a document takes when laid out flat, as the fitting probe counts
/// them (a `Union` by its second alternative).
pub open spec fn flat_width<A>(d: Doc<A>) -> nat
    decreases d,
{
    match d {
        Doc::Text(t) => text_bytes(t@).len(),
        Doc::Space => 1,
        Doc::Append(l, r) => flat_width(*l) + flat_width(*r),
        Doc::FlatAlt(_, y) => flat_width(*y),
        Doc::Nest(_, i) => flat_width(*i),
        Doc::Group(i) => flat_width(*i),
        Doc::Annotated(_, i) => flat_width(*i),
        Doc::Union(_, r) => flat_width(*r),
        _ => 0,
    }
}

/// Whether a document laid out flat meets no hard line break.
pub open spec fn flat_breakless<A>(d: Doc<A>) -> bool
    decreases d,
{
    match d {
        Doc::Newline => false,
        Doc::Append(l, r) => flat_breakless(*l) && flat_breakless(*r),
        Doc::FlatAlt(_, y) => flat_breakless(*y),
        Doc::Nest(_, i) => flat_breakless(*i),
        Doc::Group(i) => flat_breakless(*i),
        Doc::Annotated(_, i) => flat_breakless(*i),
        Doc::Union(_, r) => flat_breakless(*r),
        _ => true,
    }
}

/// Flat width of the documents on a probe stack.
pub open spec fn docs_flat_width<'a, A>(f: Seq<&'a Doc<A>>) -> nat
    decreases f.len(),
{
    if f.len() == 0 { 0 } else { docs_flat_width(f.drop_last()) + flat_width(*f.last()) }
}

/// Whether every document on a probe stack is free of hard line breaks when flat.
pub open spec fn docs_breakless<'a, A>(f: Seq<&'a Doc<A>>) -> bool
    decreases f.len(),
{
    f.len() == 0 || (docs_breakless(f.drop_last()) && flat_breakless(*f.last()))
}

proof fn lemma_flat_push<'a, A>(g: Seq<&'a Doc<A>>, x: &'a Doc<A>)
    ensures
        docs_flat_width(g.push(x)) == docs_flat_width(g) + flat_width(*x),
        docs_breakless(g.push(x)) == (docs_breakless(g) && flat_breakless(*x)),
        docs_size(g.push(x)) == docs_size(g) + crate::doc::size(*x),
{
    assert(g.push(x).drop_last() =~= g);
    lemma_docs_size_push(g, x);
}

/// Flat documents without hard breaks, and with nothing after them, fit when
/// their flat width is within the budget.
proof fn lemma_fits_when_narrow<'a, A>(rem: int, f: Seq<&'a Doc<A>>, always: bool)
    requires
        docs_breakless(f),
        docs_flat_width(f) <= rem,
    ensures
        fits(rem, f, Seq::empty(), Mode::Flat, always),
    decreases docs_size(f),
{
    if f.len() > 0 {
        let g = f.drop_last();
        match *f.last() {
            Doc::Append(l, r) => {
                lemma_flat_push(g, &*r);
                lemma_flat_push(g.push(&*r), &*l);
                lemma_fits_when_narrow(rem, g.push(&*r).push(&*l), always);
            },
            Doc::FlatAlt(_, y) => {
                lemma_flat_push(g, &*y);
                lemma_fits_when_narrow(rem, g.push(&*y), always);
            },
            Doc::Nest(_, i) => {
                lemma_flat_push(g, &*i);
                lemma_fits_when_narrow(rem, g.push(&*i), always);
            },
            Doc::Group(i) => {
                lemma_flat_push(g, &*i);
                lemma_fits_when_narrow(rem, g.push(&*i), always);
            },
            Doc::Annotated(_, i) => {
                lemma_flat_push(g, &*i);
                lemma_fits_when_narrow(rem, g.push(&*i), always);
            },
            Doc::Union(_, i) => {
                lemma_flat_push(g, &*i);
                lemma_fits_when_narrow(rem, g.push(&*i), always);
            },
            Doc::Text(t) => lemma_fits_when_narrow(rem - text_bytes(t@).len(), g, always),
            Doc::Space => lemma_fits_when_narrow(rem - 1, g, always),
            _ => lemma_fits_when_narrow(rem, g, always),
        }
    }
}

/// Flat documents wider than the budget do not fit, whatever follows them.
proof fn lemma_no_fit_when_wide<'a, A>(rem: int, f: Seq<&'a Doc<A>>, b: Seq<Cmd<'a, A>>)
    requires
        docs_flat_width(f) > rem,
        docs_flat_width(f) > 0,
    ensures
        !fits(rem, f, b, Mode::Flat, false),
    decreases docs_size(f),
{
    let g = f.drop_last();
    match *f.last() {
        Doc::Append(l, r) => {
            lemma_flat_push(g, &*r);
            lemma_flat_push(g.push(&*r), &*l);
            lemma_no_fit_when_wide(rem, g.push(&*r).push(&*l), b);
        },
        Doc::FlatAlt(_, y) => {
            lemma_flat_push(g, &*y);
            lemma_no_fit_when_wide(rem, g.push(&*y), b);
        },
        Doc::Nest(_, i) => {
            lemma_flat_push(g, &*i);
            lemma_no_fit_when_wide(rem, g.push(&*i), b);
        },
        Doc::Group(i) => {
            lemma_flat_push(g, &*i);
            lemma_no_fit_when_wide(rem, g.push(&*i), b);
        },
        Doc::Annotated(_, i) => {
            lemma_flat_push(g, &*i);
            lemma_no_fit_when_wide(rem, g.push(&*i), b);
        },
        Doc::Union(_, i) => {
            lemma_flat_push(g, &*i);
            lemma_no_fit_when_wide(rem, g.push(&*i), b);
        },
        Doc::Text(t) => {
            let n = text_bytes(t@).len() as int;
            if rem - n >= 0 {
                lemma_no_fit_when_wide(rem - n, g, b);
            }
        },
        Doc::Space => {
            if rem - 1 >= 0 {
                lemma_no_fit_when_wide(rem - 1, g, b);
            }
        },
        Doc::Nil => lemma_no_fit_when_wide(rem, g, b),
        Doc::Newline => {},
    }
}

/// A group met in break mode, as the last thing on its line, whose flat form has
/// no hard break and fits in the columns left, is laid out exactly as its
/// content in flat mode.
pub proof fn law_group_fits_flat<'a, A>(
    w: int,
    pos: int,
    lv: Seq<usize>,
    ind: usize,
    g: &'a Doc<A>,
    d: &'a Doc<A>,
)
    requires
        g is Group,
        *g->Group_0 == *d,
        flat_breakless(*d),
        flat_width(*d) <= w - pos,
    ensures
        run(w, pos, seq![(ind, Mode::Break, g)], lv) == run(w, pos, seq![(ind, Mode::Flat, d)], lv),
{
    let s = seq![(ind, Mode::Break, g)];
    assert(s.drop_last() =~= Seq::<Cmd<'a, A>>::empty());
    assert(seq![d] =~= Seq::<&'a Doc<A>>::empty().push(d));
    lemma_flat_push(Seq::<&'a Doc<A>>::empty(), d);
    lemma_fits_when_narrow(w - pos, seq![d], false);
    assert(Seq::<Cmd<'a, A>>::empty().push((ind, Mode::Flat, d)) =~= seq![(ind, Mode::Flat, d)]);
}

/// A group met in break mode whose flat width exceeds the columns left is laid
/// out in break mode, and a space directly in break mode is a line break at the
/// current indentation.
pub proof fn law_group_overflow_breaks<'a, A>(
    w: int,
    pos: int,
    rest: Seq<Cmd<'a, A>>,
    lv: Seq<usize>,
    ind: usize,
    g: &'a Doc<A>,
    d: &'a Doc<A>,
    sp: &'a Doc<A>,
)
    requires
        g is Group,
        *g->Group_0 == *d,
        flat_width(*d) > w - pos,
        flat_width(*d) > 0,
        *sp == Doc::<A>::Space,
    ensures
        run(w, pos, rest.push((ind, Mode::Break, g)), lv) == run(w, pos, rest.push((ind, Mode::Break, d)), lv),
        run(w, pos, rest.push((ind, Mode::Break, sp)), lv) == seq![Out::<A>::Newline(ind as nat)] + close(
            w,
            ind as int,
            rest,
            lv,
        ),
{
    assert(rest.push((ind, Mode::Break, g)).drop_last() =~= rest);
    assert(rest.push((ind, Mode::Break, sp)).drop_last() =~= rest);
    assert(seq![d] =~= Seq::<&'a Doc<A>>::empty().push(d));
    lemma_flat_push(Seq::<&'a Doc<A>>::empty(), d);
    lemma_no_fit_when_wide(w - pos, seq![d], rest);
}

/// Indentation accumulates: `Nest(a, Nest(b, d))` lays out as `d` indented by
/// `a + b` more, while the work below it keeps its own indentation.
pub proof fn law_nest_accumulates<'a, A>(
    w: int,
    pos: int,
    rest: Seq<Cmd<'a, A>>,
    lv: Seq<usize>,
    ind: usize,
    mode: Mode,
    a: usize,
    b: usize,
    outer: &'a Doc<A>,
    d: &'a Doc<A>,
)
    requires
        outer is Nest,
        outer->Nest_0 == a,
        *outer->Nest_1 is Nest,
        (*outer->Nest_1)->Nest_0 == b,
        *(*outer->Nest_1)->Nest_1 == *d,
        ind + a + b <= usize::MAX,
    ensures
        run(w, pos, rest.push((ind, mode, outer)), lv) == run(
            w,
            pos,
            rest.push(((ind + a + b) as usize, mode, d)),
            lv,
        ),
{
    let mid: &'a Doc<A> = &*outer->Nest_1;
    assert(rest.push((ind, mode, outer)).drop_last() =~= rest);
    assert(rest.push(((ind + a) as usize, mode, mid)).drop_last() =~= rest);
    assert(run(w, pos, rest.push((ind, mode, outer)), lv) == run(
        w,
        pos,
        rest.push(((ind + a) as usize, mode, mid)),
        lv,
    ));
    assert((((ind + a) as usize) + b) as usize == (ind + a + b) as usize);
    assert(run(w, pos, rest.push(((ind + a) as usize, mode, mid)), lv) == run(
        w,
        pos,
        rest.push(((ind + a + b) as usize, mode, d)),
        lv,
    ));
}

/// Whether a document holds only text, concatenation, nesting and annotations.
pub open spec fn plain<A>(d: Doc<A>) -> bool
    decreases d,
{
    match d {
        Doc::Nil => true,
        Doc::Text(_) => true,
        Doc::Append(l, r) => plain(*l) && plain(*r),
        Doc::Nest(_, i) => plain(*i),
        Doc::Annotated(_, i) => plain(*i),
        _ => false,
    }
}

/// The bytes of a document's texts, in order.
pub open spec fn texts<A>(d: Doc<A>) -> Seq<u8>
    decreases d,
{
    match d {
        Doc::Text(t) => text_bytes(t@),
        Doc::Append(l, r) => texts(*l) + texts(*r),
        Doc::Nest(_, i) => texts(*i),
        Doc::Annotated(_, i) => texts(*i),
        _ => seq![],
    }
}

/// The texts of a work stack, from the item processed next down to the bottom.
pub open spec fn stack_texts<'a, A>(s: Seq<Cmd<'a, A>>) -> Seq<u8>
    decreases s.len(),
{
    if s.len() == 0 { seq![] } else { texts(*s.last().2) + stack_texts(s.drop_last()) }
}

/// Whether every document on a work stack is plain.
pub open spec fn stack_plain<'a, A>(s: Seq<Cmd<'a, A>>) -> bool
    decreases s.len(),
{
    s.len() == 0 || (stack_plain(s.drop_last()) && plain(*s.last().2))
}

proof fn lemma_plain_push<'a, A>(s: Seq<Cmd<'a, A>>, x: Cmd<'a, A>)
    ensures
        stack_texts(s.push(x)) == texts(*x.2) + stack_texts(s),
        stack_plain(s.push(x)) == (stack_plain(s) && plain(*x.2)),
        stack_size(s.push(x)) == stack_size(s) + crate::doc::size(*x.2),
{
    assert(s.push(x).drop_last() =~= s);
    lemma_stack_push(s, x);
}

proof fn lemma_run_plain<'a, A>(w: int, pos: int, s: Seq<Cmd<'a, A>>, lv: Seq<usize>)
    requires
        stack_plain(s),
    ensures
        bytes_of(run(w, pos, s, lv)) == stack_texts(s),
    decreases stack_size(s), lv.len(), 0nat,
{
    if s.len() > 0 {
        let ind = s.last().0;
        let mode = s.last().1;
        let rest = s.drop_last();
        match *s.last().2 {
            Doc::Nil => {
                lemma_close_plain(w, pos, rest, lv);
                assert(stack_texts(s) =~= stack_texts(rest));
            },
            Doc::Text(t) => {
                let n = text_bytes(t@).len() as int;
                lemma_close_plain(w, pos + n, rest, lv);
                lemma_cons(Out::<A>::Text(text_bytes(t@)), close(w, pos + n, rest, lv));
            },
            Doc::Append(l, r) => {
                lemma_plain_push(rest, (ind, mode, &*r));
                lemma_plain_push(rest.push((ind, mode, &*r)), (ind, mode, &*l));
                lemma_run_plain(w, pos, rest.push((ind, mode, &*r)).push((ind, mode, &*l)), lv);
                assert(stack_texts(s) =~= texts(*l) + (texts(*r) + stack_texts(rest)));
            },
            Doc::Nest(off, i) => {
                lemma_plain_push(rest, ((ind + off) as usize, mode, &*i));
                lemma_run_plain(w, pos, rest.push(((ind + off) as usize, mode, &*i)), lv);
            },
            Doc::Annotated(a, i) => {
                lemma_plain_push(rest, (ind, mode, &*i));
                let lv2 = lv.push(rest.len() as usize);
                lemma_run_plain(w, pos, rest.push((ind, mode, &*i)), lv2);
                lemma_cons(Out::Push(a), run(w, pos, rest.push((ind, mode, &*i)), lv2));
                assert(bytes_of(run(w, pos, s, lv)) =~= stack_texts(s));
            },
            _ => {},
        }
    }
}

proof fn lemma_close_plain<'a, A>(w: int, pos: int, s: Seq<Cmd<'a, A>>, lv: Seq<usize>)
    requires
        stack_plain(s),
    ensures
        bytes_of(close(w, pos, s, lv)) == stack_texts(s),
    decreases stack_size(s), lv.len(), 1nat,
{
    if lv.len() > 0 && lv.last() == s.len() {
        lemma_close_plain(w, pos, s, lv.drop_last());
        lemma_cons(Out::<A>::Pop, close(w, pos, s, lv.drop_last()));
        assert(bytes_of(close(w, pos, s, lv)) =~= stack_texts(s));
    } else {
        lemma_run_plain(w, pos, s, lv);
    }
}

/// Text fidelity: a document of text, concatenation, nesting and annotations is
/// written, at any width, as exactly the bytes of its texts in order.
pub proof fn law_text_fidelity<'a, A>(doc: &'a Doc<A>, width: usize)
    requires
        plain(*doc),
    ensures
        bytes_of(layout(doc, width)) == texts(*doc),
{
    let s = seq![(0usize, Mode::Break, doc)];
    assert(s =~= Seq::<Cmd<'a, A>>::empty().push((0usize, Mode::Break, doc)));
    lemma_plain_push(Seq::<Cmd<'a, A>>::empty(), (0usize, Mode::Break, doc));
    lemma_run_plain(width as int, 0, s, seq![]);
    assert(stack_texts(s) =~= texts(*doc));
}

/// Whether annotation calls, with `open` spans already open, close every span
/// they open and never close one that is not open.
pub open spec fn balanced_from(ms: Seq<Mark>, open: int) -> bool
    decreases ms.len(),
{
    if ms.len() == 0 {
        open == 0
    } else {
        match ms[0] {
            Mark::Push => balanced_from(ms.drop_first(), open + 1),
            Mark::Pop => open > 0 && balanced_from(ms.drop_first(), open - 1),
        }
    }
}

/// The recorded stack sizes are in order and none exceeds `bound`.
pub open spec fn levels_ok(lv: Seq<usize>, bound: int) -> bool {
    &&& forall|i: int, j: int| 0 <= i <= j < lv.len() ==> lv[i] <= lv[j]
    &&& forall|i: int| 0 <= i < lv.len() ==> lv[i] <= bound
}

proof fn lemma_balanced_cons(m: Mark, ms: Seq<Mark>, open: int)
    ensures
        balanced_from(seq![m] + ms, open) == match m {
            Mark::Push => balanced_from(ms, open + 1),
            Mark::Pop => open > 0 && balanced_from(ms, open - 1),
        },
{
    assert((seq![m] + ms).drop_first() =~= ms);
    assert((seq![m] + ms)[0] == m);
}

/// A work stack has no more items than nodes.
proof fn lemma_len_le_size<'a, A>(s: Seq<Cmd<'a, A>>)
    ensures
        s.len() <= stack_size(s),
    decreases s.len(),
{
    if s.len() > 0 {
        lemma_len_le_size(s.drop_last());
    }
}

proof fn lemma_run_balanced<'a, A>(w: int, pos: int, s: Seq<Cmd<'a, A>>, lv: Seq<usize>)
    requires
        stack_size(s) <= usize::MAX,
        s.len() > 0 ==> levels_ok(lv, s.len() - 1),
        s.len() == 0 ==> lv.len() == 0,
    ensures
        balanced_from(marks_of(run(w, pos, s, lv)), lv.len() as int),
    decreases stack_size(s), lv.len(), 0nat,
{
    if s.len() == 0 {
        assert(marks_of(run(w, pos, s, lv)) =~= Seq::<Mark>::empty());
    } else {
        let ind = s.last().0;
        let mode = s.last().1;
        let rest = s.drop_last();
        let k = lv.len() as int;
        match *s.last().2 {
            Doc::Nil => lemma_close_balanced(w, pos, rest, lv),
            Doc::Text(t) => {
                let p = pos + text_bytes(t@).len();
                lemma_close_balanced(w, p, rest, lv);
                lemma_cons(Out::<A>::Text(text_bytes(t@)), close(w, p, rest, lv));
                assert(marks_of(run(w, pos, s, lv)) =~= marks_of(close(w, p, rest, lv)));
            },
            Doc::Space => {
                if mode == Mode::Flat {
                    lemma_close_balanced(w, pos + 1, rest, lv);
                    lemma_cons(Out::<A>::Space, close(w, pos + 1, rest, lv));
                    assert(marks_of(run(w, pos, s, lv)) =~= marks_of(close(w, pos + 1, rest, lv)));
                } else {
                    lemma_close_balanced(w, ind as int, rest, lv);
                    lemma_cons(Out::<A>::Newline(ind as nat), close(w, ind as int, rest, lv));
                    assert(marks_of(run(w, pos, s, lv)) =~= marks_of(close(w, ind as int, rest, lv)));
                }
            },
            Doc::Newline => {
                lemma_close_balanced(w, ind as int, rest, lv);
                lemma_cons(Out::<A>::Newline(ind as nat), close(w, ind as int, rest, lv));
                assert(marks_of(run(w, pos, s, lv)) =~= marks_of(close(w, ind as int, rest, lv)));
            },
            Doc::Append(l, r) => {
                lemma_stack_push(rest, (ind, mode, &*r));
                lemma_stack_push(rest.push((ind, mode, &*r)), (ind, mode, &*l));
                lemma_run_balanced(w, pos, rest.push((ind, mode, &*r)).push((ind, mode, &*l)), lv);
            },
            Doc::FlatAlt(x, y) => {
                let c = (ind, mode, if mode == Mode::Break { &*x } else { &*y });
                lemma_stack_push(rest, c);
                lemma_run_balanced(w, pos, rest.push(c), lv);
            },
            Doc::Group(i) => {
                let m = if mode == Mode::Break && !fits(w - pos, seq![&*i], rest, Mode::Flat, false) {
                    Mode::Break
                } else {
                    Mode::Flat
                };
                lemma_stack_push(rest, (ind, m, &*i));
                lemma_run_balanced(w, pos, rest.push((ind, m, &*i)), lv);
            },
            Doc::Union(l, r) => {
                let c = (
                    ind,
                    mode,
                    if fits(w - pos, seq![&*l], rest, Mode::Flat, true) { &*l } else { &*r },
                );
                lemma_stack_push(rest, c);
                lemma_run_balanced(w, pos, rest.push(c), lv);
            },
            Doc::Nest(off, i) => {
                lemma_stack_push(rest, ((ind + off) as usize, mode, &*i));
                lemma_run_balanced(w, pos, rest.push(((ind + off) as usize, mode, &*i)), lv);
            },
            Doc::Annotated(a, i) => {
                let lv2 = lv.push(rest.len() as usize);
                lemma_stack_push(rest, (ind, mode, &*i));
                lemma_len_le_size(s);
                assert forall|i: int, j: int| 0 <= i <= j < lv2.len() implies lv2[i] <= lv2[j] by {
                    if j < lv.len() {
                        assert(lv2[i] == lv[i] && lv2[j] == lv[j]);
                    } else {
                        assert(lv2[j] == rest.len());
                        if i < lv.len() {
                            assert(lv2[i] == lv[i]);
                            assert(lv[i] <= s.len() - 1);
                        }
                    }
                }
                assert(levels_ok(lv2, rest.len() as int));
                lemma_run_balanced(w, pos, rest.push((ind, mode, &*i)), lv2);
                lemma_cons(Out::Push(a), run(w, pos, rest.push((ind, mode, &*i)), lv2));
                assert(marks_of(run(w, pos, s, lv)) =~= seq![Mark::Push] + marks_of(
                    run(w, pos, rest.push((ind, mode, &*i)), lv2),
                ));
                lemma_balanced_cons(Mark::Push, marks_of(run(w, pos, rest.push((ind, mode, &*i)), lv2)), k);
            },
        }
    }
}

proof fn lemma_close_balanced<'a, A>(w: int, pos: int, s: Seq<Cmd<'a, A>>, lv: Seq<usize>)
    requires
        stack_size(s) <= usize::MAX,
        levels_ok(lv, s.len() as int),
    ensures
        balanced_from(marks_of(close(w, pos, s, lv)), lv.len() as int),
    decreases stack_size(s), lv.len(), 1nat,
{
    if lv.len() > 0 && lv.last() == s.len() {
        let lv2 = lv.drop_last();
        lemma_close_balanced(w, pos, s, lv2);
        lemma_cons(Out::<A>::Pop, close(w, pos, s, lv2));
        lemma_balanced_cons(Mark::Pop, marks_of(close(w, pos, s, lv2)), lv.len() as int);
        assert(marks_of(close(w, pos, s, lv)) =~= seq![Mark::Pop] + marks_of(close(w, pos, s, lv2)));
    } else {
        if lv.len() > 0 {
            assert(lv[lv.len() - 1] < s.len());
            assert forall|i: int| 0 <= i < lv.len() implies lv[i] <= s.len() - 1 by {
                assert(lv[i] <= lv[lv.len() - 1]);
            }
        }
        lemma_run_balanced(w, pos, s, lv);
    }
}

/// Annotation balance: laying out any document makes as many pop calls as push
/// calls, and no pop comes before the push that it closes.
pub proof fn law_annotation_balance<'a, A>(doc: &'a Doc<A>, width: usize)
    requires
        crate::doc::size(*doc) <= usize::MAX,
    ensures
        balanced_from(marks_of(layout(doc, width)), 0),
{
    let s = seq![(0usize, Mode::Break, doc)];
    assert(s =~= Seq::<Cmd<'a, A>>::empty().push((0usize, Mode::Break, doc)));
    lemma_stack_push(Seq::<Cmd<'a, A>>::empty(), (0usize, Mode::Break, doc));
    lemma_run_balanced(width as int, 0, s, seq![]);
}

/// The annotation calls of output placed at byte offsets are, in order, those
/// that the output makes.
pub proof fn lemma_placed_kinds<A>(os: Seq<Out<A>>, base: nat)
    ensures
        placed(os, base).map_values(|p: (nat, Mark)| p.1) == marks_of(os),
    decreases os.len(),
{
    if os.len() > 0 {
        lemma_placed_kinds(os.drop_last(), base);
        let at = base + bytes_of(os.drop_last()).len();
        assert(out_placed(os.last(), at).map_values(|p: (nat, Mark)| p.1) =~= out_marks(os.last()));
        assert(placed(os, base).map_values(|p: (nat, Mark)| p.1) =~= placed(os.drop_last(), base).map_values(
            |p: (nat, Mark)| p.1,
        ) + out_placed(os.last(), at).map_values(|p: (nat, Mark)| p.1));
    } else {
        assert(placed(os, base).map_values(|p: (nat, Mark)| p.1) =~= marks_of(os));
    }
}

/// The annotation calls that a sink receives from laying out a document, at
/// whatever byte offset it starts, are balanced and well nested.
pub proof fn law_sink_annotation_balance<'a, A>(doc: &'a Doc<A>, width: usize, base: nat)
    requires
        crate::doc::size(*doc) <= usize::MAX,
    ensures
        balanced_from(placed(layout(doc, width), base).map_values(|p: (nat, Mark)| p.1), 0),
{
    law_annotation_balance(doc, width);
    lemma_placed_kinds(layout(doc, width), base);
}

} // verus!
