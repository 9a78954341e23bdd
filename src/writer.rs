use vstd::prelude::*;
use vstd::string::StringSliceAdditionalSpecFns;
use vstd::utf8::{encode_utf8_valid_utf8, valid_utf8, valid_utf8_concat};

verus! {

/// `core::fmt::Error`, the unit error of formatting; it has no fields.
#[verifier::external_type_specification]
pub struct ExFmtError(core::fmt::Error);

/// `core::fmt::Arguments`, a template together with the values it renders.
#[verifier::external_type_specification]
#[verifier::external_body]
pub struct ExArguments<'a>(core::fmt::Arguments<'a>);

/// A writer that appends text fragments to a borrowed byte buffer.
pub struct WriteTo<'a> {
    buf: &'a mut [u8],
    /// Bytes requested so far, saturated at `usize::MAX`.
    len: usize,
    /// Every byte requested so far, in order, whether it fit or not.
    requested: Ghost<Seq<u8>>,
}

impl<'a> WriteTo<'a> {
    /// Number of bytes the buffer can hold.
    pub closed spec fn capacity(&self) -> nat {
        self.buf@.len()
    }

    /// Concatenation of all fragments handed to the writer so far.
    pub closed spec fn text(&self) -> Seq<u8> {
        self.requested@
    }

    /// Total number of bytes the writer was asked to write.
    pub open spec fn written_len(&self) -> nat {
        self.text().len()
    }

    /// The writer has been asked for more than the buffer holds.
    pub open spec fn overflowed(&self) -> bool {
        self.written_len() > self.capacity()
    }

    /// How many bytes of the text the buffer holds: all of it, or as much as fits.
    pub open spec fn stored(&self) -> int {
        min_len(self.written_len(), self.capacity())
    }

    /// What a length query reports: the number of bytes written, or nothing
    /// once the buffer has overflowed.
    pub open spec fn length(&self) -> Option<usize> {
        if self.overflowed() { None } else { Some(self.written_len() as usize) }
    }

    /// What an emptiness query reports: whether nothing was written, or
    /// nothing once the buffer has overflowed.
    pub open spec fn emptiness(&self) -> Option<bool> {
        if self.overflowed() { None } else { Some(self.written_len() == 0) }
    }

    /// `post` is `pre` after one write of `frag`, which reported success
    /// exactly when `ok`: the buffer holds as much of the text as fits, and
    /// beyond that what it held before.
    pub open spec fn write_step(pre: Self, post: Self, frag: Seq<u8>, ok: bool) -> bool {
        &&& post.capacity() == pre.capacity()
        &&& post.text() == pre.text() + frag
        &&& ok <==> !post.overflowed()
        &&& post.contents() == post.text().subrange(0, post.stored()) + pre.contents().subrange(
            post.stored(),
            pre.capacity() as int,
        )
    }

    /// Bytes currently held by the buffer.
    pub closed spec fn contents(&self) -> Seq<u8> {
        self.buf@
    }

    /// The count matches the bytes requested, the requested bytes are text,
    /// and the buffer holds as much of them as fits.
    pub closed spec fn wf(&self) -> bool {
        &&& self.buf@.len() <= isize::MAX
        &&& valid_utf8(self.requested@)
        &&& self.len == if self.requested@.len() <= usize::MAX {
            self.requested@.len()
        } else {
            usize::MAX as nat
        }
        &&& self.buf@.subrange(0, min_len(self.requested@.len(), self.buf@.len()))
            == self.requested@.subrange(0, min_len(self.requested@.len(), self.buf@.len()))
    }

    /// Constructs a writer over `buf`, with nothing written yet.
    pub fn new(buf: &'a mut [u8]) -> (r: Self)
        requires
            old(buf)@.len() <= isize::MAX,
        ensures
            r.wf(),
            r.capacity() == old(buf)@.len(),
            r.contents() == old(buf)@,
            r.text() == Seq::<u8>::empty(),
    {
        let w = WriteTo { buf, len: 0, requested: Ghost(Seq::empty()) };
        assert(w.buf@.subrange(0, 0) =~= w.requested@.subrange(0, 0));
        w
    }

    /// The text written so far, unless the buffer overflowed.
    ///
    /// The accepted bytes are checked to be well-formed UTF-8 before they are
    /// handed out as text; since every fragment was itself text, the check
    /// always passes.
    pub fn as_str(self) -> (r: Option<&'a str>)
        requires
            self.wf(),
        ensures
            r is Some <==> !self.overflowed(),
            r matches Some(s) ==> s.spec_bytes() == self.text(),
    {
        let WriteTo { buf, len, requested } = self;
        let shared: &'a [u8] = buf;
        if len <= shared.len() {
            let prefix = vstd::slice::slice_subrange(shared, 0, len);
            assert(prefix@ =~= requested@);
            decode_text(prefix)
        } else {
            None
        }
    }

    /// Ends a rendering pass: the text written, provided the formatting
    /// engine reported success (`rendered`) and everything fit in the buffer.
    pub fn finish(self, rendered: core::fmt::Result) -> (r: Result<&'a str, core::fmt::Error>)
        requires
            self.wf(),
        ensures
            r is Ok <==> rendered is Ok && !self.overflowed(),
            r matches Ok(s) ==> s.spec_bytes() == self.text(),
    {
        if rendered.is_err() {
            return Err(core::fmt::Error);
        }
        match self.as_str() {
            Some(s) => Ok(s),
            None => Err(core::fmt::Error),
        }
    }

    /// The number of bytes written, unless the buffer overflowed.
    pub fn len(&self) -> (r: Option<usize>)
        requires
            self.wf(),
        ensures
            r == self.length(),
    {
        if self.len <= self.buf.len() {
            Some(self.len)
        } else {
            None
        }
    }

    /// Whether nothing has been written, unless the buffer overflowed.
    pub fn is_empty(&self) -> (r: Option<bool>)
        requires
            self.wf(),
        ensures
            r == self.emptiness(),
    {
        if self.len <= self.buf.len() {
            Some(self.len == 0)
        } else {
            None
        }
    }
}

impl<'a> core::fmt::Write for WriteTo<'a> {
    /// Appends `s`; fails when it does not fit entirely in what is left of the buffer.
    fn write_str(&mut self, s: &str) -> (r: core::fmt::Result)
        requires
            old(self).wf(),
        ensures
            final(self).wf(),
            Self::write_step(*old(self), *final(self), s.spec_bytes(), r is Ok),
    {
        let bytes = s.as_bytes();
        let n = bytes.len();
        if self.len > self.buf.len() {
            let ghost req = self.requested@ + bytes@;
            proof {
                encode_utf8_valid_utf8(s@);
                valid_utf8_concat(self.requested@, bytes@);
                let c = self.buf@.len() as int;
                assert(req.subrange(0, c) =~= self.requested@.subrange(0, c));
                assert(self.buf@ =~= self.buf@.subrange(0, c) + self.buf@.subrange(c, c));
            }
            self.len = self.len.saturating_add(n);
            self.requested = Ghost(req);
            return Err(core::fmt::Error);
        }
        let start = self.len;
        let room = self.buf.len() - start;
        let num = if n < room { n } else { room };
        let mut i: usize = 0;
        while i < num
            invariant
                self.buf@.len() == old(self).buf@.len(),
                start + num <= self.buf@.len(),
                self.buf@.len() <= isize::MAX,
                self.requested == old(self).requested,
                self.len == old(self).len,
                i <= num <= n,
                n == bytes@.len(),
                self.buf@.subrange(0, start as int) == old(self).buf@.subrange(0, start as int),
                forall|j: int| 0 <= j < i ==> self.buf@[start + j] == bytes@[j],
                forall|j: int|
                    start + i <= j < self.buf@.len() ==> self.buf@[j] == old(self).buf@[j],
            decreases num - i,
        {
            self.buf[start + i] = bytes[i];
            i += 1;
        }
        let ghost req = self.requested@ + bytes@;
        proof {
            encode_utf8_valid_utf8(s@);
            valid_utf8_concat(self.requested@, bytes@);
            let m = min_len(req.len(), self.buf@.len());
            assert(m == start + num);
            assert forall|j: int| 0 <= j < m implies self.buf@[j] == req[j] by {
                if j < start {
                    assert(self.buf@[j] == self.buf@.subrange(0, start as int)[j]);
                    assert(old(self).buf@[j] == old(self).buf@.subrange(0, start as int)[j]);
                    assert(old(self).requested@[j] == old(self).requested@.subrange(0, start as int)[j]);
                } else {
                    assert(self.buf@[start + (j - start)] == bytes@[j - start]);
                }
            }
            assert(self.buf@.subrange(0, m) =~= req.subrange(0, m));
            assert(self.buf@ =~= req.subrange(0, m) + old(self).buf@.subrange(
                m,
                old(self).buf@.len() as int,
            ));
        }
        self.len = start.saturating_add(n);
        self.requested = Ghost(req);
        if num < n {
            Err(core::fmt::Error)
        } else {
            Ok(())
        }
    }
}

/// Formats `args` into `buf`: the rendered text, borrowed from `buf`, or an
/// error when the formatting engine failed or the text did not fit.
pub fn show<'a>(buf: &'a mut [u8], args: core::fmt::Arguments) -> (r: Result<&'a str, core::fmt::Error>)
    requires
        old(buf)@.len() <= isize::MAX,
    ensures
        r matches Ok(s) ==> s.spec_bytes().len() <= old(buf)@.len(),
{
    let mut w = WriteTo::new(buf);
    let rendered = render_into(&mut w, args);
    w.finish(rendered)
}

/// Relies on `core::fmt::write`: it renders `args` by handing the pieces of
/// text to the writer's `write_str`, in order, and touches the writer in no
/// other way.
#[verifier::external_body]
fn render_into(w: &mut WriteTo, args: core::fmt::Arguments) -> (r: core::fmt::Result)
    requires
        old(w).wf(),
    ensures
        final(w).wf(),
        final(w).capacity() == old(w).capacity(),
        old(w).text().is_prefix_of(final(w).text()),
{
    core::fmt::write(w, args)
}

/// Relies on `core::str::from_utf8`: it accepts exactly the well-formed UTF-8
/// byte sequences, and the text it returns is made of those bytes.
#[verifier::external_body]
fn decode_text<'b>(b: &'b [u8]) -> (r: Option<&'b str>)
    ensures
        r is Some <==> valid_utf8(b@),
        r matches Some(s) ==> s.spec_bytes() == b@,
{
    core::str::from_utf8(b).ok()
}

/// A fresh writer over a nonempty buffer reports an empty, successful result:
/// no overflow, length zero, and emptiness.
pub proof fn lemma_fresh_writer_is_empty(w: WriteTo)
    requires
        w.wf(),
        w.text() == Seq::<u8>::empty(),
        w.capacity() > 0,
    ensures
        !w.overflowed(),
        w.length() == Some(0usize),
        w.emptiness() == Some(true),
{
}

/// A writer asked for exactly as many bytes as its buffer holds has not
/// overflowed: its length is the capacity and its text is handed out whole.
pub proof fn lemma_exact_fit(w: WriteTo)
    requires
        w.wf(),
        w.written_len() == w.capacity(),
    ensures
        !w.overflowed(),
        w.length() == Some(w.capacity() as usize),
{
}

/// A writer asked for more bytes than its buffer holds has overflowed: it
/// reports neither a length nor emptiness, and hands out no text.
pub proof fn lemma_overflow(w: WriteTo)
    requires
        w.wf(),
        w.written_len() > w.capacity(),
    ensures
        w.overflowed(),
        w.length() is None,
        w.emptiness() is None,
{
}

/// A successful write adds exactly the fragment's length to the reported
/// length, which therefore never decreases.
pub proof fn lemma_successful_write_grows(pre: WriteTo, post: WriteTo, frag: Seq<u8>)
    requires
        pre.wf(),
        post.wf(),
        WriteTo::write_step(pre, post, frag, true),
    ensures
        pre.length() is Some,
        post.length() == Some((pre.length().unwrap() + frag.len()) as usize),
        post.length().unwrap() >= pre.length().unwrap(),
        frag.len() > 0 ==> post.length().unwrap() > pre.length().unwrap(),
{
}

/// Overflow is sticky: a write to an overflowed writer fails, and the writer
/// still reports neither a length nor emptiness.
pub proof fn lemma_overflow_is_sticky(pre: WriteTo, post: WriteTo, frag: Seq<u8>, ok: bool)
    requires
        pre.wf(),
        post.wf(),
        pre.overflowed(),
        WriteTo::write_step(pre, post, frag, ok),
    ensures
        !ok,
        post.overflowed(),
        post.length() is None,
        post.emptiness() is None,
{
}

/// Over a run of writes starting from a fresh writer, the text is the
/// concatenation of the fragments, in order; when that concatenation fits in
/// the buffer, every write succeeded and the writer has not overflowed.
pub proof fn lemma_writes_concatenate(states: Seq<WriteTo>, frags: Seq<Seq<u8>>, oks: Seq<bool>)
    requires
        states.len() == frags.len() + 1,
        oks.len() == frags.len(),
        states[0].text() == Seq::<u8>::empty(),
        forall|i: int|
            0 <= i < frags.len() ==> #[trigger] WriteTo::write_step(
                states[i],
                states[i + 1],
                frags[i],
                oks[i],
            ),
    ensures
        states.last().text() == frags.flatten(),
        states.last().capacity() == states[0].capacity(),
        frags.flatten().len() <= states[0].capacity() ==> {
            &&& !states.last().overflowed()
            &&& forall|i: int| 0 <= i < oks.len() ==> #[trigger] oks[i]
        },
    decreases frags.len(),
{
    if frags.len() > 0 {
        let k = frags.len() - 1;
        let fs = frags.drop_last();
        let ss = states.drop_last();
        let os = oks.drop_last();
        assert forall|i: int| 0 <= i < fs.len() implies #[trigger] WriteTo::write_step(
            ss[i],
            ss[i + 1],
            fs[i],
            os[i],
        ) by {
            assert(WriteTo::write_step(states[i], states[i + 1], frags[i], oks[i]));
        }
        lemma_writes_concatenate(ss, fs, os);
        assert(WriteTo::write_step(states[k], states[k + 1], frags[k], oks[k]));
        assert(frags =~= fs.push(frags[k]));
        fs.lemma_flatten_push(frags[k]);
        assert(states.last() == states[k + 1]);
        assert(ss.last() == states[k]);
        if frags.flatten().len() <= states[0].capacity() {
            assert forall|i: int| 0 <= i < oks.len() implies #[trigger] oks[i] by {
                if i < k {
                    assert(os[i]);
                }
            }
        }
    }
}

/// The smaller of two lengths.
pub open spec fn min_len(a: nat, b: nat) -> int {
    if a <= b { a as int } else { b as int }
}

} // verus!
