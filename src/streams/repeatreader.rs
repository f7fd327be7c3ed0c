use vstd::arithmetic::div_mod::{
    lemma_add_mod_noop,
    lemma_fundamental_div_mod,
    lemma_fundamental_div_mod_converse,
    lemma_mod_multiples_basic,
    lemma_mod_self_0,
    lemma_small_mod,
};
use vstd::arithmetic::mul::lemma_mul_is_commutative;
use vstd::prelude::*;
use vstd::string::StringSliceAdditionalSpecFns;

verus! {

/// Size of the scratch buffer that `read_to_end` reads through.
const CHUNK: usize = 64;

/// The abstract state of a [`RepeatReader`].
pub ghost struct RepeatState {
    /// Bytes the reader yields in all, until it is reset.
    pub size: nat,
    /// The content that is repeated.
    pub content: Seq<u8>,
    /// Bytes handed out so far.
    pub emitted: nat,
}

/// The whole stream that `size` bytes of `content`, repeated, make.
pub open spec fn cyclic(content: Seq<u8>, size: nat) -> Seq<u8>
    recommends
        content.len() > 0 || size == 0,
{
    Seq::new(size, |i: int| content[i % (content.len() as int)])
}

impl RepeatState {
    /// Bytes still to be read before the reader is exhausted.
    pub open spec fn remaining(self) -> nat {
        (self.size - self.emitted) as nat
    }

    /// A read of `n` bytes terminates: there is content to repeat, or nothing to read.
    pub open spec fn can_read(self, n: nat) -> bool {
        self.content.len() > 0 || n == 0
    }

    /// Bytes that a read into a buffer of length `l` hands out: the buffer's
    /// length or what is left, whichever is fewer.
    pub open spec fn read_len(self, l: nat) -> nat {
        if l < self.remaining() {
            l
        } else {
            self.remaining()
        }
    }

    /// Everything the reader yields from its start to exhaustion.
    pub open spec fn stream(self) -> Seq<u8> {
        cyclic(self.content, self.size)
    }

    /// The next `n` bytes of the stream.
    pub open spec fn next_bytes(self, n: nat) -> Seq<u8> {
        self.stream().subrange(self.emitted as int, (self.emitted + n) as int)
    }

    /// What reading to exhaustion yields from this state.
    pub open spec fn rest(self) -> Seq<u8> {
        self.stream().subrange(self.emitted as int, self.size as int)
    }

    /// The state after `n` more bytes have been handed out.
    pub open spec fn advanced(self, n: nat) -> RepeatState {
        RepeatState { emitted: self.emitted + n, ..self }
    }

    /// The bytes that successive reads into buffers of the lengths `ls` hand
    /// out, one after the other.
    pub open spec fn read_seq(self, ls: Seq<nat>) -> Seq<u8>
        decreases ls.len(),
    {
        if ls.len() == 0 {
            Seq::empty()
        } else {
            let n = self.read_len(ls[0]);
            self.next_bytes(n) + self.advanced(n).read_seq(ls.drop_first())
        }
    }

    /// The state after successive reads into buffers of the lengths `ls`.
    pub open spec fn after_reads(self, ls: Seq<nat>) -> RepeatState
        decreases ls.len(),
    {
        if ls.len() == 0 {
            self
        } else {
            self.advanced(self.read_len(ls[0])).after_reads(ls.drop_first())
        }
    }

    /// The state after a reset: the same size and content, nothing handed out.
    pub open spec fn rewound(self) -> RepeatState {
        RepeatState { emitted: 0, ..self }
    }

    /// The state after reading to exhaustion.
    pub open spec fn drained(self) -> RepeatState {
        RepeatState { emitted: self.size, ..self }
    }
}

/// Can be created with a given size and then repeats the
/// given content until finished reading.
pub struct RepeatReader {
    size: usize,
    contents: Vec<u8>,
    /// The cursor into `contents`; it may stand at the end.
    pos: usize,
    read: usize,
}

impl View for RepeatReader {
    type V = RepeatState;

    closed spec fn view(&self) -> RepeatState {
        RepeatState { size: self.size as nat, content: self.contents@, emitted: self.read as nat }
    }
}

/// `content` written out `k` times in a row.
pub open spec fn repeat(content: Seq<u8>, k: nat) -> Seq<u8>
    decreases k,
{
    if k == 0 {
        Seq::empty()
    } else {
        repeat(content, (k - 1) as nat) + content
    }
}

/// The state of a reader that was just made, or just reset.
pub open spec fn fresh(content: Seq<u8>, size: nat) -> RepeatState {
    RepeatState { size, content, emitted: 0 }
}

/// `(a + j) % m` where `a % m + j` stays below `m`.
proof fn lemma_mod_shift(a: int, j: int, m: int)
    requires
        m > 0,
        a >= 0,
        j >= 0,
        a % m + j < m,
    ensures
        (a + j) % m == a % m + j,
{
    lemma_fundamental_div_mod(a, m);
    lemma_mul_is_commutative(m, a / m);
    lemma_fundamental_div_mod_converse(a + j, m, a / m, a % m + j);
}

impl RepeatReader {
    /// The cursor agrees with the bytes handed out, and no more than `size` were.
    pub closed spec fn wf(&self) -> bool {
        &&& self.read <= self.size
        &&& self.pos <= self.contents.len()
        &&& self.contents.len() > 0 ==> (self.pos as int) % (self.contents.len() as int) == (
        self.read as int) % (self.contents.len() as int)
        &&& self.contents.len() == 0 ==> self.pos == 0
    }

    /// Create a new [`RepeatReader`] with the given `size`
    /// and `contents` to be read.
    pub fn new(size: usize, contents: Vec<u8>) -> (r: Self)
        ensures
            r.wf(),
            r@.emitted <= r@.size,
            r@ == (RepeatState { size: size as nat, content: contents@, emitted: 0 }),
    {
        RepeatReader { contents, size, pos: 0, read: 0 }
    }

    /// Returns the number of bytes left to be read.
    pub fn left(&self) -> (n: usize)
        requires
            self.wf(),
        ensures
            n == self@.remaining(),
    {
        self.size - self.read
    }

    /// Creates a new [`RepeatReader`] that repeats the bytes of `slice`.
    pub fn from_slice(size: usize, slice: &[u8]) -> (r: Self)
        ensures
            r.wf(),
            r@.emitted <= r@.size,
            r@ == (RepeatState { size: size as nat, content: slice@, emitted: 0 }),
    {
        let mut contents: Vec<u8> = Vec::new();
        contents.extend_from_slice(slice);
        assert(contents@ =~= slice@);
        RepeatReader::new(size, contents)
    }

    /// Creates a new [`RepeatReader`] that repeats the UTF-8 bytes of `str`.
    pub fn from_str(size: usize, str: &str) -> (r: Self)
        ensures
            r.wf(),
            r@.emitted <= r@.size,
            r@ == (RepeatState { size: size as nat, content: str.spec_bytes(), emitted: 0 }),
    {
        RepeatReader::from_slice(size, str.as_bytes())
    }

    /// Seeks the content back to its start and sets the count of bytes
    /// read to `0`.
    pub fn reset(&mut self)
        requires
            old(self).wf(),
        ensures
            final(self).wf(),
            final(self)@.emitted <= final(self)@.size,
            final(self)@ == old(self)@.rewound(),
            final(self)@.remaining() == old(self)@.size,
    {
        self.pos = 0;
        self.read = 0;
    }

    /// Copies bytes from the cursor into `buf[start..end]` until either runs
    /// out, and moves the cursor past them.
    fn fill(&mut self, buf: &mut [u8], start: usize, end: usize) -> (k: usize)
        requires
            start <= end <= old(buf)@.len(),
            old(self).pos <= old(self).contents.len(),
        ensures
            k as int == if end - start < old(self).contents.len() - old(self).pos {
                end - start
            } else {
                old(self).contents.len() - old(self).pos
            },
            final(self).pos == old(self).pos + k,
            final(self).contents == old(self).contents,
            final(self).size == old(self).size,
            final(self).read == old(self).read,
            final(buf)@.len() == old(buf)@.len(),
            forall|i: int|
                0 <= i < final(buf)@.len() ==> #[trigger] final(buf)@[i] == if start <= i < start
                    + k {
                    old(self).contents@[old(self).pos + i - start]
                } else {
                    old(buf)@[i]
                },
    {
        let len = self.contents.len();
        let mut k: usize = 0;
        while start + k < end && self.pos < len
            invariant
                start + k <= end <= buf@.len(),
                buf@.len() == old(buf)@.len(),
                self.pos == old(self).pos + k,
                self.pos <= len,
                len == self.contents.len(),
                self.contents == old(self).contents,
                self.size == old(self).size,
                self.read == old(self).read,
                forall|i: int|
                    0 <= i < buf@.len() ==> #[trigger] buf@[i] == if start <= i < start + k {
                        old(self).contents@[old(self).pos + i - start]
                    } else {
                        old(buf)@[i]
                    },
            decreases end - (start + k),
        {
            buf[start + k] = self.contents[self.pos];
            self.pos = self.pos + 1;
            k = k + 1;
        }
        k
    }

    /// Fills the front of `buf` with the next bytes of the stream, as many as
    /// `buf` holds or as are left, whichever is fewer, and returns how many.
    /// Whenever the content runs out it starts over from its beginning. The
    /// rest of `buf` is left as it was. Bytes can only be handed out when there
    /// is content to repeat: with empty content the read would never finish.
    pub fn read(&mut self, buf: &mut [u8]) -> (n: usize)
        requires
            old(self).wf(),
            old(self)@.can_read(old(self)@.read_len(old(buf)@.len())),
        ensures
            final(self).wf(),
            final(self)@.emitted <= final(self)@.size,
            n == old(self)@.read_len(old(buf)@.len()),
            final(self)@ == old(self)@.advanced(n as nat),
            final(self)@.remaining() == old(self)@.remaining() - n,
            final(buf)@ == old(self)@.next_bytes(n as nat) + old(buf)@.subrange(
                n as int,
                old(buf)@.len() as int,
            ),
    {
        let ln = if buf.len() > self.left() {
            self.left()
        } else {
            buf.len()
        };
        if ln == 0 {
            assert(buf@ =~= old(self)@.next_bytes(0) + old(buf)@.subrange(0, old(buf)@.len() as int));
            return 0;
        }
        let ghost len = self.contents@.len() as int;
        let ghost start = self.read as int;

        let mut got = self.fill(buf, 0, ln);
        proof {
            lemma_add_mod_noop(old(self).pos as int, got as int, len);
            lemma_add_mod_noop(start, got as int, len);
            if got > 0 {
                lemma_small_mod(old(self).pos as nat, len as nat);
            }
            assert forall|i: int| 0 <= i < got implies #[trigger] buf@[i] == self.contents@[(start
                + i) % len] by {
                lemma_mod_shift(start, i, len);
            }
        }
        while got < ln
            invariant
                got <= ln <= buf@.len(),
                buf@.len() == old(buf)@.len(),
                ln <= self.size - self.read,
                len == self.contents@.len(),
                len > 0,
                self.pos as int <= len,
                self.contents == old(self).contents,
                self.size == old(self).size,
                self.read == old(self).read,
                start == self.read,
                got < ln ==> self.pos as int == len,
                (self.pos as int) % len == (start + got) % len,
                forall|i: int| 0 <= i < got ==> #[trigger] buf@[i] == self.contents@[(start + i) % len],
                forall|i: int| ln <= i < buf@.len() ==> #[trigger] buf@[i] == old(buf)@[i],
            decreases ln - got,
        {
            proof {
                lemma_mod_self_0(len);
            }
            self.pos = 0;
            let k = self.fill(buf, got, ln);
            proof {
                lemma_add_mod_noop(0, k as int, len);
                lemma_add_mod_noop(start + got, k as int, len);
                assert forall|i: int| 0 <= i < got + k implies #[trigger] buf@[i]
                    == self.contents@[(start + i) % len] by {
                    if i >= got {
                        lemma_mod_shift(start + got, i - got, len);
                    }
                }
            }
            got = got + k;
        }
        self.read = self.read + ln;
        assert(buf@ =~= old(self)@.next_bytes(ln as nat) + old(buf)@.subrange(
            ln as int,
            old(buf)@.len() as int,
        ));
        ln
    }

    /// Reads until the reader is exhausted, appending every byte to `out`, and
    /// returns how many were appended.
    pub fn read_to_end(&mut self, out: &mut Vec<u8>) -> (n: usize)
        requires
            old(self).wf(),
            old(self)@.can_read(old(self)@.remaining()),
        ensures
            final(self).wf(),
            final(self)@.emitted <= final(self)@.size,
            n == old(self)@.remaining(),
            final(self)@ == old(self)@.drained(),
            final(self)@.remaining() == 0,
            final(out)@ == old(out)@ + old(self)@.rest(),
    {
        let mut chunk: Vec<u8> = Vec::new();
        let mut c: usize = 0;
        while c < CHUNK
            invariant
                c <= CHUNK,
                chunk@.len() == c,
            decreases CHUNK - c,
        {
            chunk.push(0u8);
            c = c + 1;
        }
        let mut total: usize = 0;
        while self.left() > 0
            invariant
                self.wf(),
                self@.size == old(self)@.size,
                self@.content == old(self)@.content,
                self@.emitted == old(self)@.emitted + total,
                self@.can_read(self@.remaining()),
                chunk@.len() == CHUNK,
                out@ == old(out)@ + old(self)@.stream().subrange(
                    old(self)@.emitted as int,
                    self@.emitted as int,
                ),
            decreases self@.remaining(),
        {
            let ghost mid = out@;
            let k = self.read(chunk.as_mut_slice());
            let mut j: usize = 0;
            while j < k
                invariant
                    j <= k <= chunk@.len(),
                    out@ == mid + chunk@.subrange(0, j as int),
                decreases k - j,
            {
                out.push(chunk[j]);
                j = j + 1;
                assert(out@ =~= mid + chunk@.subrange(0, j as int));
            }
            total = total + k;
            assert(out@ =~= old(out)@ + old(self)@.stream().subrange(
                old(self)@.emitted as int,
                self@.emitted as int,
            ));
        }
        total
    }
}

/// Byte `i` of `content` repeated `k` times is byte `i % len` of `content`.
proof fn lemma_repeat_index(content: Seq<u8>, k: nat)
    requires
        content.len() > 0,
    ensures
        repeat(content, k).len() == k * content.len(),
        forall|i: int|
            0 <= i < k * content.len() ==> #[trigger] repeat(content, k)[i] == content[i
                % (content.len() as int)],
    decreases k,
{
    let len = content.len() as int;
    if k > 0 {
        let km = (k - 1) as nat;
        lemma_repeat_index(content, km);
        assert(repeat(content, k) == repeat(content, km) + content);
        assert(k * len == km * len + len) by (nonlinear_arith)
            requires
                k == km + 1,
        ;
        lemma_mod_multiples_basic(km as int, len);
        assert forall|i: int| 0 <= i < k * len implies #[trigger] repeat(content, k)[i]
            == content[i % len] by {
            if i >= km * len {
                lemma_mod_shift(km * len, i - km * len, len);
            }
        }
    } else {
        assert(k * len == 0) by (nonlinear_arith)
            requires
                k == 0,
        ;
    }
}

/// A well-formed reader has handed out no more than its size.
pub proof fn lemma_emitted_within_size(r: &RepeatReader)
    requires
        r.wf(),
    ensures
        r@.emitted <= r@.size,
{
}

/// Successive reads, whatever the lengths of their buffers, hand out the
/// stream in order from where the reader stands, without gap or overlap, and
/// never beyond its size.
pub proof fn lemma_reads_follow_stream(s: RepeatState, ls: Seq<nat>)
    requires
        s.emitted <= s.size,
    ensures
        s.after_reads(ls).size == s.size,
        s.after_reads(ls).content == s.content,
        s.emitted <= s.after_reads(ls).emitted <= s.size,
        s.read_seq(ls) == s.stream().subrange(
            s.emitted as int,
            s.after_reads(ls).emitted as int,
        ),
        s.after_reads(ls).remaining() == 0 ==> s.read_seq(ls) == s.rest(),
    decreases ls.len(),
{
    if ls.len() > 0 {
        let n = s.read_len(ls[0]);
        let t = s.advanced(n);
        lemma_reads_follow_stream(t, ls.drop_first());
        assert(s.read_seq(ls) =~= s.stream().subrange(
            s.emitted as int,
            s.after_reads(ls).emitted as int,
        ));
    } else {
        assert(s.read_seq(ls) =~= s.stream().subrange(s.emitted as int, s.emitted as int));
    }
}

/// Reading a fresh reader to exhaustion, where the size is at least the
/// content's length, yields the content repeated `ceil(size / len)` times and
/// cut to `size` bytes.
/// Reads through buffers of any lengths `ls` that exhaust the reader yield
/// the same.
pub proof fn lemma_long_stream_repeats(content: Seq<u8>, size: nat, ls: Seq<nat>)
    requires
        content.len() > 0,
        size >= content.len(),
    ensures
        fresh(content, size).rest() == repeat(
            content,
            ((size + content.len() - 1) / (content.len() as int)) as nat,
        ).take(size as int),
        fresh(content, size).after_reads(ls).remaining() == 0 ==> fresh(content, size).read_seq(
            ls,
        ) == fresh(content, size).rest(),
{
    lemma_reads_follow_stream(fresh(content, size), ls);
    let len = content.len() as int;
    let k = (size + len - 1) / len;
    lemma_fundamental_div_mod(size + len - 1, len);
    lemma_mul_is_commutative(len, k);
    lemma_repeat_index(content, k as nat);
    assert(fresh(content, size).rest() =~= repeat(content, k as nat).take(size as int));
}

/// Reading a fresh reader to exhaustion, where the size is below the content's
/// length, yields the first `size` bytes of the content.
/// Reads through buffers of any lengths `ls` that exhaust the reader yield
/// the same.
pub proof fn lemma_short_stream_is_prefix(content: Seq<u8>, size: nat, ls: Seq<nat>)
    requires
        size < content.len(),
    ensures
        fresh(content, size).rest() == content.take(size as int),
        fresh(content, size).after_reads(ls).remaining() == 0 ==> fresh(content, size).read_seq(
            ls,
        ) == content.take(size as int),
{
    lemma_reads_follow_stream(fresh(content, size), ls);
    assert forall|i: int| 0 <= i < size implies #[trigger] fresh(content, size).rest()[i]
        == content[i] by {
        lemma_small_mod(i as nat, content.len());
    }
    assert(fresh(content, size).rest() =~= content.take(size as int));
}

/// An exhausted reader, such as one of size zero, hands out no bytes on any
/// read and stays as it is, whatever the buffers' lengths `ls`; reading a
/// reader of size zero to exhaustion yields nothing.
pub proof fn lemma_empty_size(content: Seq<u8>, s: RepeatState, ls: Seq<nat>)
    requires
        s.emitted == s.size,
    ensures
        forall|l: nat| #[trigger] fresh(content, 0).read_len(l) == 0,
        forall|l: nat| #[trigger] s.read_len(l) == 0,
        s.next_bytes(0) == Seq::<u8>::empty(),
        s.advanced(0) == s,
        s.read_seq(ls) == Seq::<u8>::empty(),
        s.after_reads(ls) == s,
        fresh(content, 0).remaining() == 0,
        fresh(content, 0).rest() == Seq::<u8>::empty(),
        fresh(content, 0).read_seq(ls) == Seq::<u8>::empty(),
    decreases ls.len(),
{
    lemma_reads_follow_stream(s, ls);
    lemma_reads_follow_stream(fresh(content, 0), ls);
    assert(s.next_bytes(0) =~= Seq::<u8>::empty());
    assert(s.advanced(0) =~= s);
    assert(s.read_seq(ls) =~= Seq::<u8>::empty());
    assert(fresh(content, 0).read_seq(ls) =~= Seq::<u8>::empty());
    if ls.len() > 0 {
        lemma_empty_size(content, s, ls.drop_first());
    }
    assert(fresh(content, 0).rest() =~= Seq::<u8>::empty());
}

/// After a reset, reading to exhaustion, resetting again and reading to
/// exhaustion once more yields the same bytes both times: the whole stream.
pub proof fn lemma_reset_replays(s: RepeatState)
    ensures
        s.rewound().rest() == s.rewound().drained().rewound().rest(),
        s.rewound().rest() == s.stream(),
{
    assert(s.rewound().rest() =~= s.stream());
}

} // verus!
