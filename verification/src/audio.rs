//! Cutting the captured sample stream into fixed-size frames for sending.
use vstd::prelude::*;

verus! {

/// Samples in one sent frame.
pub const FRAME_SAMPLES: usize = 960;

/// One offer to a collector with `pending` samples: the frame it completes
/// (if any) and the samples pending afterwards.
pub open spec fn offer_step<T>(pending: Seq<T>, sample: T, muted: bool) -> (Option<Seq<T>>, Seq<T>) {
    if muted {
        (None, pending)
    } else if pending.len() + 1 == FRAME_SAMPLES {
        (Some(pending.push(sample)), Seq::empty())
    } else {
        (None, pending.push(sample))
    }
}

/// Frames completed and samples pending after a run of offers.
pub open spec fn offer_all<T>(pending: Seq<T>, offers: Seq<(T, bool)>) -> (Seq<Seq<T>>, Seq<T>)
    decreases offers.len(),
{
    if offers.len() == 0 {
        (Seq::empty(), pending)
    } else {
        let (frame, next) = offer_step(pending, offers[0].0, offers[0].1);
        let (frames, last) = offer_all(next, offers.drop_first());
        match frame {
            Some(f) => (seq![f] + frames, last),
            None => (frames, last),
        }
    }
}

/// The samples of a run of offers that were not muted, in order.
pub open spec fn unmuted<T>(offers: Seq<(T, bool)>) -> Seq<T>
    decreases offers.len(),
{
    if offers.len() == 0 {
        Seq::empty()
    } else if offers[0].1 {
        unmuted(offers.drop_first())
    } else {
        seq![offers[0].0] + unmuted(offers.drop_first())
    }
}

/// The frames of a run laid end to end.
pub open spec fn joined<T>(frames: Seq<Seq<T>>) -> Seq<T>
    decreases frames.len(),
{
    if frames.len() == 0 {
        Seq::empty()
    } else {
        frames[0] + joined(frames.drop_first())
    }
}

/// Over any run of offers, every unmuted sample comes out exactly once and in
/// capture order: the frames laid end to end followed by what is still
/// pending are the samples pending before followed by the unmuted samples.
/// Every frame has `FRAME_SAMPLES` samples, and fewer stay pending.
pub proof fn lemma_frames_keep_every_sample<T>(pending: Seq<T>, offers: Seq<(T, bool)>)
    requires
        pending.len() < FRAME_SAMPLES,
    ensures
        ({
            let (frames, last) = offer_all(pending, offers);
            &&& joined(frames) + last == pending + unmuted(offers)
            &&& forall|i: int| 0 <= i < frames.len() ==> #[trigger] frames[i].len() == FRAME_SAMPLES
            &&& last.len() < FRAME_SAMPLES
        }),
    decreases offers.len(),
{
    if offers.len() == 0 {
        assert(pending + unmuted(offers) =~= pending);
        assert(joined(Seq::<Seq<T>>::empty()) + pending =~= pending);
    } else {
        let (sample, muted) = offers[0];
        let (frame, next) = offer_step(pending, sample, muted);
        let rest = offers.drop_first();
        lemma_frames_keep_every_sample(next, rest);
        let (frames, last) = offer_all(next, rest);
        if muted {
            assert(unmuted(offers) == unmuted(rest));
        } else {
            assert(unmuted(offers) == seq![sample] + unmuted(rest));
            assert(pending + unmuted(offers) =~= pending.push(sample) + unmuted(rest));
            match frame {
                Some(f) => {
                    let all = seq![f] + frames;
                    assert(all.drop_first() =~= frames);
                    assert(joined(all) == f + joined(frames));
                    assert(Seq::<T>::empty() + unmuted(rest) =~= unmuted(rest));
                    assert(joined(all) + last =~= f + (joined(frames) + last));
                    assert forall|i: int| 0 <= i < all.len() implies #[trigger] all[i].len()
                        == FRAME_SAMPLES by {
                        if i > 0 {
                            assert(all[i] == frames[i - 1]);
                        }
                    }
                },
                None => {},
            }
        }
    }
}

/// Collects captured samples, while the microphone is not muted, into frames
/// of `FRAME_SAMPLES` samples.
pub struct FrameCollector<T> {
    pending: Vec<T>,
}

impl<T> FrameCollector<T> {
    #[verifier::type_invariant]
    spec fn frame_not_full(&self) -> bool {
        self.pending.len() < FRAME_SAMPLES
    }

    /// Samples collected towards the next frame.
    pub closed spec fn pending(&self) -> Seq<T> {
        self.pending@
    }
}

impl<T: Copy> FrameCollector<T> {
    /// A collector with nothing pending.
    pub fn new() -> (c: FrameCollector<T>)
        ensures
            c.pending() == Seq::<T>::empty(),
    {
        FrameCollector { pending: Vec::with_capacity(FRAME_SAMPLES) }
    }

    /// Number of samples pending.
    pub fn pending_len(&self) -> (n: usize)
        ensures
            n == self.pending().len(),
            n < FRAME_SAMPLES,
    {
        proof {
            use_type_invariant(self);
        }
        self.pending.len()
    }

    /// Offers one captured sample. A muted sample is dropped. Otherwise it is
    /// appended, and when that completes a frame, the frame is handed out and
    /// collection starts afresh.
    pub fn offer(&mut self, sample: T, muted: bool) -> (frame: Option<Vec<T>>)
        ensures
            (
                match frame {
                    Some(f) => Some(f@),
                    None => None,
                },
                final(self).pending(),
            ) == offer_step(old(self).pending(), sample, muted),
            old(self).pending().len() < FRAME_SAMPLES,
            final(self).pending().len() < FRAME_SAMPLES,
            muted ==> frame is None && final(self).pending() == old(self).pending(),
            !muted && old(self).pending().len() + 1 == FRAME_SAMPLES ==> (frame matches Some(f)
                && f@ == old(self).pending().push(sample) && final(self).pending().len() == 0),
            !muted && old(self).pending().len() + 1 < FRAME_SAMPLES ==> frame is None
                && final(self).pending() == old(self).pending().push(sample),
    {
        proof {
            use_type_invariant(&*self);
        }
        if muted {
            return None;
        }
        let mut next: Vec<T> = Vec::with_capacity(FRAME_SAMPLES);
        std::mem::swap(&mut next, &mut self.pending);
        next.push(sample);
        if next.len() == FRAME_SAMPLES {
            Some(next)
        } else {
            std::mem::swap(&mut next, &mut self.pending);
            None
        }
    }
}

} // verus!
