//! Framing for a streaming sample-rate converter.
//!
//! A converter takes its input in frames of the length it asks for. The
//! buffer here cuts a stream that arrives in chunks of any size into such
//! frames, and carries what does not fill a frame over to the next chunk. A
//! chunk is staged, frames are taken from the stage one by one, and only a
//! commit changes what is carried: a conversion that fails part-way leaves
//! the buffer as it was. The samples are of any type that can be copied.

use vstd::prelude::*;

verus! {

/// The complete frames of `frame_len` samples at the front of a stream.
pub open spec fn frames_of<T>(stream: Seq<T>, frame_len: nat) -> Seq<Seq<T>>
    decreases stream.len(),
{
    if frame_len == 0 || stream.len() < frame_len {
        Seq::empty()
    } else {
        seq![stream.take(frame_len as int)] + frames_of(stream.skip(frame_len as int), frame_len)
    }
}

/// What is left of a stream behind its complete frames.
pub open spec fn rest_of<T>(stream: Seq<T>, frame_len: nat) -> Seq<T>
    decreases stream.len(),
{
    if frame_len == 0 || stream.len() < frame_len {
        stream
    } else {
        rest_of(stream.skip(frame_len as int), frame_len)
    }
}

/// Copies the samples from `from` up to `to`.
fn copy_range<T: Copy>(samples: &Vec<T>, from: usize, to: usize) -> (r: Vec<T>)
    requires
        from <= to <= samples.len(),
    ensures
        r@ == samples@.subrange(from as int, to as int),
{
    let mut copy: Vec<T> = Vec::with_capacity(to - from);
    let mut i: usize = from;
    while i < to
        invariant
            from <= i <= to <= samples.len(),
            copy@ == samples@.subrange(from as int, i as int),
        decreases to - i,
    {
        copy.push(samples[i]);
        proof {
            assert(copy@ =~= samples@.subrange(from as int, i + 1));
        }
        i = i + 1;
    }
    copy
}

/// Appends a copy of the samples.
fn extend<T: Copy>(stream: &mut Vec<T>, samples: &[T])
    ensures
        final(stream)@ == old(stream)@ + samples@,
{
    let mut i: usize = 0;
    proof {
        assert(stream@ =~= old(stream)@ + samples@.take(0));
    }
    while i < samples.len()
        invariant
            i <= samples.len(),
            stream@ == old(stream)@ + samples@.take(i as int),
        decreases samples.len() - i,
    {
        stream.push(samples[i]);
        proof {
            assert(stream@ =~= old(stream)@ + samples@.take(i + 1));
        }
        i = i + 1;
    }
    proof {
        assert(samples@.take(samples.len() as int) =~= samples@);
    }
}

/// A chunk staged behind the carried samples, with a cursor at the first
/// sample that no frame has taken yet.
pub struct Framing<T> {
    stream: Vec<T>,
    cursor: usize,
}

impl<T> Framing<T> {
    #[verifier::type_invariant]
    spec fn cursor_in_stream(&self) -> bool {
        self.cursor <= self.stream.len()
    }

    /// The staged samples that no frame has taken yet.
    pub closed spec fn remaining(&self) -> Seq<T> {
        self.stream@.skip(self.cursor as int)
    }
}

impl<T: Copy> Framing<T> {
    /// Number of staged samples that no frame has taken yet.
    pub fn remaining_len(&self) -> (r: usize)
        ensures
            r == self.remaining().len(),
    {
        proof {
            use_type_invariant(self);
        }
        self.stream.len() - self.cursor
    }

    /// Takes the next frame of `frame_len` samples, where that many remain.
    pub fn next_frame(&mut self, frame_len: usize) -> (r: Option<Vec<T>>)
        ensures
            r is Some <==> frame_len <= old(self).remaining().len(),
            r is Some ==> r->0@ == old(self).remaining().take(frame_len as int)
                && final(self).remaining() == old(self).remaining().skip(frame_len as int),
            r is None ==> final(self).remaining() == old(self).remaining(),
    {
        proof {
            use_type_invariant(&*self);
        }
        if self.stream.len() - self.cursor < frame_len {
            return None;
        }
        let end: usize = self.cursor + frame_len;
        let frame = copy_range(&self.stream, self.cursor, end);
        proof {
            assert(frame@ =~= self.stream@.skip(self.cursor as int).take(frame_len as int));
            assert(self.stream@.skip(end as int) =~= self.stream@.skip(self.cursor as int).skip(
                frame_len as int,
            ));
        }
        self.cursor = end;
        Some(frame)
    }
}

/// The samples carried from one chunk to the next.
pub struct BufferedResampler<T> {
    unprocessed: Vec<T>,
}

impl<T> View for BufferedResampler<T> {
    type V = Seq<T>;

    /// The carried samples, oldest first.
    closed spec fn view(&self) -> Seq<T> {
        self.unprocessed@
    }
}

impl<T: Copy> BufferedResampler<T> {
    /// A buffer that carries nothing, with room for one frame.
    pub fn new(frame_len: usize) -> (r: Self)
        ensures
            r@ == Seq::<T>::empty(),
    {
        BufferedResampler { unprocessed: Vec::with_capacity(frame_len) }
    }

    /// Number of carried samples.
    pub fn len(&self) -> (r: usize)
        ensures
            r == self@.len(),
    {
        self.unprocessed.len()
    }

    /// Stages a chunk behind the carried samples. The buffer itself stays as
    /// it is until [`BufferedResampler::commit`].
    pub fn begin(&self, samples: &[T]) -> (r: Framing<T>)
        ensures
            r.remaining() == self@ + samples@,
    {
        let mut stream: Vec<T> = Vec::with_capacity(self.unprocessed.len());
        extend(&mut stream, self.unprocessed.as_slice());
        extend(&mut stream, samples);
        proof {
            assert(stream@ =~= self@ + samples@);
            assert(stream@.skip(0) =~= stream@);
        }
        Framing { stream, cursor: 0 }
    }

    /// Ends a chunk: what no frame has taken is carried to the next chunk.
    pub fn commit(&mut self, framing: Framing<T>)
        ensures
            final(self)@ == framing.remaining(),
    {
        proof {
            use_type_invariant(&framing);
        }
        let end: usize = framing.stream.len();
        self.unprocessed = copy_range(&framing.stream, framing.cursor, end);
        proof {
            assert(self.unprocessed@ =~= framing.remaining());
        }
    }

    /// Feeds a chunk to a converter that takes frames of one fixed length:
    /// returns every frame that the carried samples and the chunk complete,
    /// in order, and carries the rest.
    pub fn process(&mut self, samples: &[T], frame_len: usize) -> (r: Vec<Vec<T>>)
        requires
            frame_len > 0,
        ensures
            r.len() == frames_of(old(self)@ + samples@, frame_len as nat).len(),
            forall|i: int|
                0 <= i < r.len() ==> (#[trigger] r[i])@ == frames_of(
                    old(self)@ + samples@,
                    frame_len as nat,
                )[i],
            final(self)@ == rest_of(old(self)@ + samples@, frame_len as nat),
    {
        let mut framing = self.begin(samples);
        let mut frames: Vec<Vec<T>> = Vec::new();
        let ghost stream = self@ + samples@;
        let ghost taken: Seq<Seq<T>> = Seq::empty();
        let mut open: bool = true;
        while open
            invariant
                frame_len > 0,
                frames.len() == taken.len(),
                forall|i: int| 0 <= i < frames.len() ==> (#[trigger] frames[i])@ == taken[i],
                taken + frames_of(framing.remaining(), frame_len as nat) == frames_of(
                    stream,
                    frame_len as nat,
                ),
                rest_of(framing.remaining(), frame_len as nat) == rest_of(stream, frame_len as nat),
                !open ==> framing.remaining().len() < frame_len,
            decreases framing.remaining().len() + (if open { 1nat } else { 0nat }),
        {
            let ghost before = framing.remaining();
            match framing.next_frame(frame_len) {
                Some(frame) => {
                    proof {
                        assert(taken.push(frame@) + frames_of(
                            framing.remaining(),
                            frame_len as nat,
                        ) =~= taken + frames_of(before, frame_len as nat));
                        taken = taken.push(frame@);
                    }
                    frames.push(frame);
                },
                None => {
                    open = false;
                },
            }
        }
        proof {
            assert(taken + Seq::<Seq<T>>::empty() =~= taken);
        }
        self.commit(framing);
        frames
    }
}

/// Feeding a stream in two chunks gives the frames, and carries the rest,
/// that feeding it in one chunk does.
pub proof fn lemma_framing_is_additive<T>(fed: Seq<T>, chunk: Seq<T>, frame_len: nat)
    requires
        frame_len > 0,
    ensures
        frames_of(fed, frame_len) + frames_of(rest_of(fed, frame_len) + chunk, frame_len)
            == frames_of(fed + chunk, frame_len),
        rest_of(rest_of(fed, frame_len) + chunk, frame_len) == rest_of(fed + chunk, frame_len),
    decreases fed.len(),
{
    if fed.len() < frame_len {
        assert(Seq::<Seq<T>>::empty() + frames_of(fed + chunk, frame_len) =~= frames_of(
            fed + chunk,
            frame_len,
        ));
    } else {
        let n = frame_len as int;
        lemma_framing_is_additive(fed.skip(n), chunk, frame_len);
        assert((fed + chunk).take(n) =~= fed.take(n));
        assert((fed + chunk).skip(n) =~= fed.skip(n) + chunk);
        assert(frames_of(fed, frame_len) + frames_of(rest_of(fed, frame_len) + chunk, frame_len)
            =~= seq![fed.take(n)] + (frames_of(fed.skip(n), frame_len) + frames_of(
            rest_of(fed.skip(n), frame_len) + chunk,
            frame_len,
        )));
    }
}

proof fn lemma_frame_count<T>(stream: Seq<T>, frame_len: nat)
    requires
        frame_len > 0,
    ensures
        frames_of(stream, frame_len).len() * frame_len + rest_of(stream, frame_len).len()
            == stream.len(),
        rest_of(stream, frame_len).len() < frame_len,
        frames_of(stream, frame_len).len() == stream.len() / frame_len,
        rest_of(stream, frame_len).len() == stream.len() % frame_len,
    decreases stream.len(),
{
    let count = frames_of(stream, frame_len).len() as int;
    let rest = rest_of(stream, frame_len).len() as int;
    if stream.len() >= frame_len {
        let tail = frames_of(stream.skip(frame_len as int), frame_len);
        lemma_frame_count(stream.skip(frame_len as int), frame_len);
        assert((tail.len() + 1) * frame_len == tail.len() * frame_len + frame_len)
            by (nonlinear_arith);
    }
    assert(count * frame_len == frame_len * count) by (nonlinear_arith);
    vstd::arithmetic::div_mod::lemma_fundamental_div_mod_converse(
        stream.len() as int,
        frame_len as int,
        count,
        rest,
    );
}

/// No sample is lost: every frame has the frame length, the stream's length
/// over the frame length is the number of frames and its remainder the
/// number of samples carried, and the frames followed by what is carried
/// are the stream.
pub proof fn lemma_framing_conserves<T>(stream: Seq<T>, frame_len: nat)
    requires
        frame_len > 0,
    ensures
        forall|i: int|
            0 <= i < frames_of(stream, frame_len).len() ==> (#[trigger] frames_of(
                stream,
                frame_len,
            )[i]).len() == frame_len,
        rest_of(stream, frame_len).len() < frame_len,
        frames_of(stream, frame_len).len() * frame_len + rest_of(stream, frame_len).len()
            == stream.len(),
        frames_of(stream, frame_len).len() == stream.len() / frame_len,
        rest_of(stream, frame_len).len() == stream.len() % frame_len,
        frames_of(stream, frame_len).flatten() + rest_of(stream, frame_len) == stream,
    decreases stream.len(),
{
    lemma_frame_count(stream, frame_len);
    let frames = frames_of(stream, frame_len);
    if stream.len() < frame_len {
        assert(frames.flatten() + stream =~= stream);
    } else {
        let n = frame_len as int;
        let tail = frames_of(stream.skip(n), frame_len);
        lemma_framing_conserves(stream.skip(n), frame_len);
        assert(frames.first() == stream.take(n));
        assert(frames.drop_first() =~= tail);
        assert(frames.flatten() =~= stream.take(n) + tail.flatten());
        assert(frames.flatten() + rest_of(stream, frame_len) =~= stream.take(n) + (tail.flatten()
            + rest_of(stream.skip(n), frame_len)));
        assert(stream.take(n) + stream.skip(n) =~= stream);
        assert forall|i: int| 0 <= i < frames.len() implies (#[trigger] frames[i]).len()
            == frame_len by {
            if i > 0 {
                assert(frames[i] == tail[i - 1]);
            }
        }
    }
}

/// The frames that a buffer carrying `carry` gives when `chunks` are fed to
/// it one after another.
pub open spec fn frames_of_chunks<T>(
    carry: Seq<T>,
    chunks: Seq<Seq<T>>,
    frame_len: nat,
) -> Seq<Seq<T>>
    decreases chunks.len(),
{
    if chunks.len() == 0 {
        Seq::empty()
    } else {
        frames_of(carry + chunks[0], frame_len) + frames_of_chunks(
            rest_of(carry + chunks[0], frame_len),
            chunks.skip(1),
            frame_len,
        )
    }
}

/// What a buffer carrying `carry` carries after `chunks` have been fed to it
/// one after another.
pub open spec fn rest_of_chunks<T>(carry: Seq<T>, chunks: Seq<Seq<T>>, frame_len: nat) -> Seq<T>
    decreases chunks.len(),
{
    if chunks.len() == 0 {
        carry
    } else {
        rest_of_chunks(rest_of(carry + chunks[0], frame_len), chunks.skip(1), frame_len)
    }
}

/// However a stream is cut into chunks, feeding the chunks one after another
/// gives the frames, and carries the rest, that feeding the whole stream at
/// once does.
pub proof fn lemma_chunking_is_immaterial<T>(
    carry: Seq<T>,
    chunks: Seq<Seq<T>>,
    frame_len: nat,
)
    requires
        frame_len > 0,
        carry.len() < frame_len,
    ensures
        frames_of_chunks(carry, chunks, frame_len) == frames_of(
            carry + chunks.flatten(),
            frame_len,
        ),
        rest_of_chunks(carry, chunks, frame_len) == rest_of(carry + chunks.flatten(), frame_len),
    decreases chunks.len(),
{
    if chunks.len() == 0 {
        assert(carry + chunks.flatten() =~= carry);
    } else {
        let fed = carry + chunks[0];
        let tail = chunks.skip(1);
        lemma_framing_conserves(fed, frame_len);
        lemma_chunking_is_immaterial(rest_of(fed, frame_len), tail, frame_len);
        lemma_framing_is_additive(fed, tail.flatten(), frame_len);
        assert(chunks.drop_first() =~= tail);
        assert(chunks.flatten() =~= chunks[0] + tail.flatten());
        assert(fed + tail.flatten() =~= carry + chunks.flatten());
    }
}

} // verus!
