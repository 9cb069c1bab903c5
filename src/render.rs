use vstd::prelude::*;
use vstd::string::StringSliceAdditionalSpecFns;
use vstd::utf8::{encode_utf8, is_char_boundary};

verus! {

/// An annotation call that a sink received.
pub enum Mark {
    Push,
    Pop,
}

/// The operations necessary to render a document.
///
/// The spec functions model a sink; a sink whose contracts are proved defines
/// them. Their defaults model nothing and promise no success.
pub trait Render {
    type Error;

    /// The bytes that the sink holds.
    closed spec fn written(&self) -> Seq<u8> {
        Seq::empty()
    }

    /// The annotation calls that the sink has accepted, each with the number of
    /// bytes the sink held when it came.
    closed spec fn marks(&self) -> Seq<(nat, Mark)> {
        Seq::empty()
    }

    /// Whether every call on the sink succeeds.
    closed spec fn infallible(&self) -> bool {
        false
    }

    /// Whether `write_str` always takes the whole chunk.
    closed spec fn writes_whole(&self) -> bool {
        false
    }

    /// Writes a prefix of `s`, ending on a character boundary, and returns its
    /// length in bytes; at least one byte is taken from a non-empty `s`. On an
    /// error, some prefix of `s` may have been taken.
    fn write_str(&mut self, s: &str) -> (r: Result<usize, Self::Error>)
        ensures
            r is Ok ==> {
                let n = r->Ok_0 as int;
                &&& n <= s.spec_bytes().len()
                &&& (s@.len() > 0 ==> n > 0)
                &&& is_char_boundary(s.spec_bytes(), n)
                &&& final(self).written() == old(self).written() + s.spec_bytes().subrange(0, n)
                &&& (old(self).writes_whole() ==> n == s.spec_bytes().len())
            },
            r is Err ==> exists|k: int|
                0 <= k <= s.spec_bytes().len() && final(self).written() == old(self).written()
                    + s.spec_bytes().subrange(0, k),
            final(self).marks() == old(self).marks(),
            old(self).infallible() ==> r is Ok && final(self).infallible(),
    ;

    /// Writes the whole of `s`, by as many calls of `write_str` as it takes; an
    /// empty `s` makes no call. The first error is returned as it came, with
    /// what was taken before it kept.
    fn write_str_all(&mut self, s: &str) -> (r: Result<(), Self::Error>)
        ensures
            r is Ok ==> final(self).written() == old(self).written() + s.spec_bytes(),
            r is Err ==> exists|k: int|
                0 <= k <= s.spec_bytes().len() && final(self).written() == old(self).written()
                    + s.spec_bytes().subrange(0, k),
            final(self).marks() == old(self).marks(),
            s@.len() == 0 ==> r is Ok && final(self).written() == old(self).written()
                && final(self).infallible() == old(self).infallible(),
            old(self).infallible() ==> r is Ok && final(self).infallible(),
    {
        let mut rest: &str = s;
        proof { lemma_empty_bytes(s@); }
        assert(s.spec_bytes().subrange(0, 0) =~= Seq::<u8>::empty());
        assert(old(self).written() + s.spec_bytes().subrange(0, 0) =~= old(self).written());
        while !rest.is_empty()
            invariant
                0 <= s.spec_bytes().len() - rest.spec_bytes().len(),
                s.spec_bytes() == s.spec_bytes().subrange(
                    0,
                    s.spec_bytes().len() - rest.spec_bytes().len(),
                ) + rest.spec_bytes(),
                self.written() == old(self).written() + s.spec_bytes().subrange(
                    0,
                    s.spec_bytes().len() - rest.spec_bytes().len(),
                ),
                self.marks() == old(self).marks(),
                old(self).infallible() ==> self.infallible(),
                s@.len() == 0 ==> self.infallible() == old(self).infallible(),
            decreases rest.spec_bytes().len(),
        {
            let ghost done = s.spec_bytes().len() - rest.spec_bytes().len();
            let ghost before = self.written();
            let count = match self.write_str(rest) {
                Ok(n) => n,
                Err(e) => {
                    let ghost k = choose|k: int|
                        0 <= k <= rest.spec_bytes().len() && self.written() == before
                            + rest.spec_bytes().subrange(0, k);
                    assert(self.written() =~= old(self).written() + s.spec_bytes().subrange(
                        0,
                        done + k,
                    ));
                    return Err(e);
                },
            };
            let ghost rb = rest.spec_bytes();
            let (_, tail) = rest.split_at(count);
            assert(rb == rb.subrange(0, count as int) + tail.spec_bytes());
            assert(s.spec_bytes().subrange(0, done + count) =~= s.spec_bytes().subrange(0, done)
                + rb.subrange(0, count as int));
            assert(s.spec_bytes() =~= s.spec_bytes().subrange(0, done + count) + tail.spec_bytes());
            rest = tail;
        }
        proof { lemma_empty_bytes(rest@); }
        assert(s.spec_bytes().subrange(0, s.spec_bytes().len() as int) =~= s.spec_bytes());
        Ok(())
    }
}

/// The operations necessary to render an annotated document.
pub trait RenderAnnotated<A>: Render {
    /// Enters an annotated span.
    fn push_annotation(&mut self, annotation: &A) -> (r: Result<(), Self::Error>)
        ensures
            final(self).written() == old(self).written(),
            r is Ok ==> final(self).marks() == old(self).marks().push((old(self).written().len(), Mark::Push)),
            r is Err ==> final(self).marks() == old(self).marks(),
            old(self).infallible() ==> r is Ok && final(self).infallible(),
    ;

    /// Leaves the innermost annotated span.
    fn pop_annotation(&mut self) -> (r: Result<(), Self::Error>)
        ensures
            final(self).written() == old(self).written(),
            r is Ok ==> final(self).marks() == old(self).marks().push((old(self).written().len(), Mark::Pop)),
            r is Err ==> final(self).marks() == old(self).marks(),
            old(self).infallible() ==> r is Ok && final(self).infallible(),
    ;
}

#[verifier::external_type_specification]
#[verifier::external_body]
pub struct ExIoError(std::io::Error);

#[verifier::external_type_specification]
#[verifier::external_body]
pub struct ExFmtError(std::fmt::Error);

/// A byte stream that `IoWrite` can write to. The spec functions model it; their
/// defaults model nothing and promise no success.
pub trait ByteWriter {
    /// The bytes that the stream holds.
    closed spec fn contents(&self) -> Seq<u8> {
        Seq::empty()
    }

    /// Whether every write succeeds.
    closed spec fn never_fails(&self) -> bool {
        false
    }

    /// Hands all of the bytes of `s` to the stream; on an error, a prefix of them
    /// may have been taken.
    fn write_all_str(&mut self, s: &str) -> (r: Result<(), std::io::Error>)
        ensures
            r is Ok ==> final(self).contents() == old(self).contents() + s.spec_bytes(),
            r is Err ==> exists|k: int|
                0 <= k <= s.spec_bytes().len() && final(self).contents() == old(self).contents()
                    + s.spec_bytes().subrange(0, k),
            old(self).never_fails() ==> r is Ok && final(self).never_fails(),
    ;
}

/// Relies on `std::io::Write::write_all` of `Vec<u8>`: appends the bytes of `s`,
/// and never fails.
#[verifier::external_body]
fn vec_write_all(w: &mut Vec<u8>, s: &str) -> (r: Result<(), std::io::Error>)
    ensures
        r is Ok,
        final(w)@ == old(w)@ + s.spec_bytes(),
{
    std::io::Write::write_all(w, s.as_bytes())
}

impl ByteWriter for Vec<u8> {
    open spec fn contents(&self) -> Seq<u8> {
        self@
    }

    open spec fn never_fails(&self) -> bool {
        true
    }

    fn write_all_str(&mut self, s: &str) -> (r: Result<(), std::io::Error>) {
        vec_write_all(self, s)
    }
}

/// A text buffer that `FmtWrite` can write to. The spec functions model it; their
/// defaults model nothing and promise no success.
pub trait TextWriter {
    /// The text that the buffer holds.
    closed spec fn text(&self) -> Seq<char> {
        Seq::empty()
    }

    /// Whether every write succeeds.
    closed spec fn never_fails(&self) -> bool {
        false
    }

    /// Appends `s` to the buffer; on an error the buffer is as it was.
    fn write_text(&mut self, s: &str) -> (r: Result<(), std::fmt::Error>)
        ensures
            r is Ok ==> final(self).text() == old(self).text() + s@,
            r is Err ==> final(self).text() == old(self).text(),
            old(self).never_fails() ==> r is Ok && final(self).never_fails(),
    ;
}

/// Relies on `std::fmt::Write::write_str` of `String`: appends `s`, and never fails.
#[verifier::external_body]
fn string_write_str(w: &mut String, s: &str) -> (r: Result<(), std::fmt::Error>)
    ensures
        r is Ok,
        final(w)@ == old(w)@ + s@,
{
    std::fmt::Write::write_str(w, s)
}

impl TextWriter for String {
    open spec fn text(&self) -> Seq<char> {
        self@
    }

    open spec fn never_fails(&self) -> bool {
        true
    }

    fn write_text(&mut self, s: &str) -> (r: Result<(), std::fmt::Error>) {
        string_write_str(self, s)
    }
}

/// Writes to a byte stream; annotations are ignored.
pub struct IoWrite<W> {
    upstream: W,
    calls: Ghost<Seq<(nat, Mark)>>,
}

impl<W> IoWrite<W> {
    /// The stream that output goes to.
    pub closed spec fn upstream(&self) -> W {
        self.upstream
    }

    /// The annotation calls received.
    pub closed spec fn calls(&self) -> Seq<(nat, Mark)> {
        self.calls@
    }

    pub fn new(upstream: W) -> (r: IoWrite<W>)
        ensures
            r.upstream() == upstream,
            r.calls() == Seq::<(nat, Mark)>::empty(),
    {
        IoWrite { upstream, calls: Ghost(Seq::empty()) }
    }

    /// Gives the stream back.
    pub fn into_inner(self) -> (r: W)
        ensures
            r == self.upstream(),
    {
        self.upstream
    }
}

impl<W: ByteWriter> Render for IoWrite<W> {
    type Error = std::io::Error;

    open spec fn written(&self) -> Seq<u8> {
        self.upstream().contents()
    }

    open spec fn marks(&self) -> Seq<(nat, Mark)> {
        self.calls()
    }

    open spec fn infallible(&self) -> bool {
        self.upstream().never_fails()
    }

    open spec fn writes_whole(&self) -> bool {
        true
    }

    /// Writes the whole of `s`.
    fn write_str(&mut self, s: &str) -> (r: Result<usize, std::io::Error>) {
        match self.write_str_all(s) {
            Ok(()) => {
                proof { lemma_whole_prefix(s@); }
                Ok(s.as_bytes().len())
            },
            Err(e) => Err(e),
        }
    }

    fn write_str_all(&mut self, s: &str) -> (r: Result<(), std::io::Error>) {
        if s.is_empty() {
            return Ok(());
        }
        self.upstream.write_all_str(s)
    }
}

impl<A, W: ByteWriter> RenderAnnotated<A> for IoWrite<W> {
    fn push_annotation(&mut self, _annotation: &A) -> (r: Result<(), std::io::Error>) {
        self.calls = Ghost(self.calls@.push((self.written().len(), Mark::Push)));
        Ok(())
    }

    fn pop_annotation(&mut self) -> (r: Result<(), std::io::Error>) {
        self.calls = Ghost(self.calls@.push((self.written().len(), Mark::Pop)));
        Ok(())
    }
}

/// Writes to a text buffer; annotations are ignored.
pub struct FmtWrite<W> {
    upstream: W,
    calls: Ghost<Seq<(nat, Mark)>>,
}

impl<W> FmtWrite<W> {
    /// The buffer that output goes to.
    pub closed spec fn upstream(&self) -> W {
        self.upstream
    }

    /// The annotation calls received.
    pub closed spec fn calls(&self) -> Seq<(nat, Mark)> {
        self.calls@
    }

    pub fn new(upstream: W) -> (r: FmtWrite<W>)
        ensures
            r.upstream() == upstream,
            r.calls() == Seq::<(nat, Mark)>::empty(),
    {
        FmtWrite { upstream, calls: Ghost(Seq::empty()) }
    }

    /// Gives the buffer back.
    pub fn into_inner(self) -> (r: W)
        ensures
            r == self.upstream(),
    {
        self.upstream
    }
}

impl<W: TextWriter> Render for FmtWrite<W> {
    type Error = std::fmt::Error;

    open spec fn written(&self) -> Seq<u8> {
        encode_utf8(self.upstream().text())
    }

    open spec fn marks(&self) -> Seq<(nat, Mark)> {
        self.calls()
    }

    open spec fn infallible(&self) -> bool {
        self.upstream().never_fails()
    }

    open spec fn writes_whole(&self) -> bool {
        true
    }

    /// Writes the whole of `s`.
    fn write_str(&mut self, s: &str) -> (r: Result<usize, std::fmt::Error>) {
        match self.write_str_all(s) {
            Ok(()) => {
                proof { lemma_whole_prefix(s@); }
                Ok(s.as_bytes().len())
            },
            Err(e) => Err(e),
        }
    }

    fn write_str_all(&mut self, s: &str) -> (r: Result<(), std::fmt::Error>) {
        if s.is_empty() {
            return Ok(());
        }
        let ghost before = self.upstream().text();
        let r = self.upstream.write_text(s);
        proof {
            lemma_encode_concat(before, s@);
            lemma_empty_bytes(s@);
            assert(s.spec_bytes().subrange(0, 0) =~= Seq::<u8>::empty());
            assert(encode_utf8(before) + s.spec_bytes().subrange(0, 0) =~= encode_utf8(before));
            assert(before + s@ == self.upstream().text() ==> self.written() == encode_utf8(before)
                + s.spec_bytes());
        }
        r
    }
}

impl<A, W: TextWriter> RenderAnnotated<A> for FmtWrite<W> {
    fn push_annotation(&mut self, _annotation: &A) -> (r: Result<(), std::fmt::Error>) {
        self.calls = Ghost(self.calls@.push((self.written().len(), Mark::Push)));
        Ok(())
    }

    fn pop_annotation(&mut self) -> (r: Result<(), std::fmt::Error>) {
        self.calls = Ghost(self.calls@.push((self.written().len(), Mark::Pop)));
        Ok(())
    }
}

/// The whole of a text is a prefix of it that ends on a character boundary.
proof fn lemma_whole_prefix(s: Seq<char>)
    ensures
        is_char_boundary(encode_utf8(s), encode_utf8(s).len() as int),
        encode_utf8(s).subrange(0, encode_utf8(s).len() as int) == encode_utf8(s),
        s.len() > 0 ==> encode_utf8(s).len() > 0,
{
    vstd::utf8::encode_utf8_valid_utf8(s);
    vstd::utf8::is_char_boundary_start_end_of_seq(encode_utf8(s));
    lemma_nonempty_bytes(s);
    assert(encode_utf8(s).subrange(0, encode_utf8(s).len() as int) =~= encode_utf8(s));
}

/// An empty text is written as no bytes.
proof fn lemma_empty_bytes(s: Seq<char>)
    ensures
        s.len() == 0 ==> encode_utf8(s) == Seq::<u8>::empty(),
{
    if s.len() == 0 {
        assert(encode_utf8(s) =~= Seq::<u8>::empty());
    }
}

/// Two texts one after the other are written as their bytes one after the other.
pub proof fn lemma_encode_concat(a: Seq<char>, b: Seq<char>)
    ensures
        encode_utf8(a + b) == encode_utf8(a) + encode_utf8(b),
    decreases a.len(),
{
    if a.len() == 0 {
        assert(a + b =~= b);
        assert(encode_utf8(a) =~= Seq::<u8>::empty());
        assert(encode_utf8(a) + encode_utf8(b) =~= encode_utf8(b));
    } else {
        assert((a + b).drop_first() =~= a.drop_first() + b);
        assert((a + b)[0] == a[0]);
        lemma_encode_concat(a.drop_first(), b);
        assert(encode_utf8(a + b) =~= encode_utf8(a) + encode_utf8(b));
    }
}

/// A non-empty text is written as at least one byte.
pub proof fn lemma_nonempty_bytes(s: Seq<char>)
    ensures
        s.len() > 0 ==> vstd::utf8::encode_utf8(s).len() > 0,
{
    if s.len() > 0 {
        reveal_with_fuel(vstd::utf8::encode_utf8, 1);
        assert(vstd::utf8::encode_utf8(s) == vstd::utf8::encode_scalar(s[0] as u32)
            + vstd::utf8::encode_utf8(s.drop_first()));
    }
}

/// The stack of active styles of a style-aware sink: entering a span pushes its
/// style; leaving it pops, and the style to apply again is the new top, or the
/// default when none is left.
pub struct StyleStack<S> {
    styles: Vec<S>,
}

impl<S> View for StyleStack<S> {
    type V = Seq<S>;

    closed spec fn view(&self) -> Seq<S> {
        self.styles@
    }
}

impl<S> StyleStack<S> {
    pub fn new() -> (r: StyleStack<S>)
        ensures
            r@ == Seq::<S>::empty(),
    {
        StyleStack { styles: Vec::new() }
    }

    /// Enters a span with style `style`.
    pub fn push(&mut self, style: S)
        ensures
            final(self)@ == old(self)@.push(style),
    {
        self.styles.push(style);
    }

    /// Leaves the innermost span; nothing happens when no span is open.
    pub fn pop(&mut self)
        ensures
            old(self)@.len() > 0 ==> final(self)@ == old(self)@.drop_last(),
            old(self)@.len() == 0 ==> final(self)@ == old(self)@,
    {
        self.styles.pop();
    }

    /// The style to apply now: the innermost open span's, or `None` for the default.
    pub fn current(&self) -> (r: Option<&S>)
        ensures
            self@.len() == 0 ==> r is None,
            self@.len() > 0 ==> r == Some(&self@.last()),
    {
        if self.styles.len() == 0 {
            None
        } else {
            Some(&self.styles[self.styles.len() - 1])
        }
    }
}

} // verus!
