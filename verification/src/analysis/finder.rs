//! Finding of frames.
use crate::trace::frame::{self, Frame, FrameModel, StoredChunk, StoredModel};
use vstd::prelude::*;

verus! {

/// A frame and all frames in it, each before those in it, in the order of their calls.
pub open spec fn frames_in(frame: Frame) -> Seq<Frame>
    decreases frame, 0nat,
{
    seq![frame] + frames_among(frame.chunks@)
}

/// The frames among chunks and all frames in them.
pub open spec fn frames_among(chunks: Seq<StoredChunk>) -> Seq<Frame>
    decreases chunks, chunks.len(),
{
    if chunks.len() == 0 {
        Seq::empty()
    } else {
        (match chunks[0] {
            StoredChunk::Frame(child) => frames_in(child),
            StoredChunk::Pause(_) => Seq::empty(),
        }) + frames_among(chunks.drop_first())
    }
}

/// The model of a frame and of all frames in it, each before those in it.
pub open spec fn all_frames(frame: FrameModel) -> Seq<FrameModel>
    decreases frame, 0nat,
{
    seq![frame] + all_among(frame.chunks)
}

/// The models of the frames among chunks and of all frames in them.
pub open spec fn all_among(chunks: Seq<StoredModel>) -> Seq<FrameModel>
    decreases chunks, chunks.len(),
{
    if chunks.len() == 0 {
        Seq::empty()
    } else {
        (match chunks[0] {
            StoredModel::Frame(child) => all_frames(child),
            StoredModel::Pause(_) => Seq::empty(),
        }) + all_among(chunks.drop_first())
    }
}

/// The models of a list of frames.
pub open spec fn frame_models(frames: Seq<Frame>) -> Seq<FrameModel> {
    Seq::new(frames.len(), |i: int| frames[i]@)
}

/// The frames in a frame are those in its model.
pub proof fn frames_in_model(frame: Frame)
    ensures
        frame_models(frames_in(frame)) == all_frames(frame@),
    decreases frame, 0nat,
{
    frame::frame_view(&frame);
    frames_among_model(frame.chunks@);
    assert(frame_models(frames_in(frame)) =~= seq![frame@] + frame_models(
        frames_among(frame.chunks@),
    ));
}

proof fn frames_among_model(chunks: Seq<StoredChunk>)
    ensures
        frame_models(frames_among(chunks)) == all_among(frame::stored_models(chunks)),
    decreases chunks, chunks.len(),
{
    let models = frame::stored_models(chunks);
    if chunks.len() == 0 {
        assert(frame_models(frames_among(chunks)) =~= Seq::empty());
    } else {
        let rest = chunks.drop_first();
        frames_among_model(rest);
        assert(frame::stored_models(rest) =~= models.drop_first());
        let first = match chunks[0] {
            StoredChunk::Frame(child) => frames_in(child),
            StoredChunk::Pause(_) => Seq::empty(),
        };
        assert(models[0] == chunks[0]@);
        if let StoredChunk::Frame(child) = chunks[0] {
            reveal_with_fuel(StoredChunk::model, 2);
            frames_in_model(child);
        } else {
            assert(frame_models(first) =~= Seq::empty());
        }
        assert(frame_models(frames_among(chunks)) =~= frame_models(first) + frame_models(
            frames_among(rest),
        ));
    }
}

/// The frames of a stack of frames and all frames in them, from the top of the stack down.
pub open spec fn frames_on(stack: Seq<&Frame>) -> Seq<Frame>
    decreases stack.len(),
{
    if stack.len() == 0 {
        Seq::empty()
    } else {
        frames_in(*stack.last()) + frames_on(stack.drop_last())
    }
}

/// Finds the frames in a frame, itself among them, that meet a predicate.
pub struct FrameFinder<'a, 'b, P> where P: Fn(&Frame) -> bool {
    todo: Vec<&'a Frame>,
    pred: &'b P,
}

impl<'a, 'b, P> FrameFinder<'a, 'b, P> where P: Fn(&Frame) -> bool {
    /// The frames that are still to be looked at.
    pub closed spec fn rest(&self) -> Seq<Frame> {
        frames_on(self.todo@)
    }

    /// The predicate.
    pub closed spec fn predicate(&self) -> P {
        *self.pred
    }

    pub fn new(root: &'a Frame, pred: &'b P) -> (result: FrameFinder<'a, 'b, P>)
        ensures
            result.rest() == frames_in(*root),
            result.predicate() == *pred,
    {
        let mut todo: Vec<&'a Frame> = Vec::new();
        todo.push(root);
        proof {
            reveal_with_fuel(frames_on, 2);
            assert(todo@.drop_last() =~= Seq::empty());
            assert(frames_on(todo@) =~= frames_in(*root));
        }
        FrameFinder { todo, pred }
    }

    /// The next frame that meets the predicate: frames come before those in them, in the order of
    /// their calls.
    pub fn next(&mut self) -> (result: Option<&'a Frame>)
        requires
            forall|frame: &Frame| call_requires(old(self).predicate(), (frame,)),
        ensures
            final(self).predicate() == old(self).predicate(),
            match result {
                Some(frame) => exists|k: int|
                    {
                        &&& 0 <= k < old(self).rest().len()
                        &&& #[trigger] old(self).rest()[k] == *frame
                        &&& call_ensures(old(self).predicate(), (frame,), true)
                        &&& final(self).rest() == old(self).rest().skip(k + 1)
                        &&& forall|j: int|
                            0 <= j < k ==> call_ensures(
                                old(self).predicate(),
                                (&#[trigger] old(self).rest()[j],),
                                false,
                            )
                    },
                None => final(self).rest().len() == 0 && forall|j: int|
                    0 <= j < old(self).rest().len() ==> call_ensures(
                        old(self).predicate(),
                        (&#[trigger] old(self).rest()[j],),
                        false,
                    ),
            },
    {
        let ghost all = self.rest();
        let ghost pred = self.predicate();
        let ghost mut k: int = 0;
        assert(all.skip(0) =~= all);
        while self.todo.len() > 0
            invariant
                forall|frame: &Frame| call_requires(pred, (frame,)),
                self.predicate() == pred,
                pred == old(self).predicate(),
                all == old(self).rest(),
                0 <= k <= all.len(),
                self.rest() == all.skip(k),
                forall|j: int| 0 <= j < k ==> call_ensures(pred, (&#[trigger] all[j],), false),
            decreases all.len() - k,
        {
            let ghost stack = self.todo@;
            let last: usize = self.todo.len() - 1;
            let frame: &'a Frame = self.todo[last];
            let popped = self.todo.pop();
            let ghost below = self.todo@;
            proof {
                assert(below =~= stack.drop_last());
                assert(frames_on(stack) =~= seq![*frame] + frames_among(frame.chunks@) + frames_on(
                    below,
                ));
                assert(all.skip(k)[0] == *frame);
                assert(all[k] == *frame);
                assert(frame.chunks@.skip(frame.chunks@.len() as int) =~= Seq::empty());
                assert(frames_among(Seq::<StoredChunk>::empty()) + frames_on(below) =~= frames_on(
                    below,
                ));
            }
            let mut i: usize = frame.chunks.len();
            while i > 0
                invariant
                    self.predicate() == pred,
                    i <= frame.chunks.len(),
                    frames_on(self.todo@) == frames_among(frame.chunks@.skip(i as int)) + frames_on(
                        below,
                    ),
                decreases i,
            {
                i -= 1;
                let ghost now = self.todo@;
                let ghost left = frame.chunks@.skip(i as int);
                proof {
                    assert(left[0] == frame.chunks@[i as int]);
                    assert(left.drop_first() =~= frame.chunks@.skip(i + 1));
                }
                if let StoredChunk::Frame(child) = &frame.chunks[i] {
                    self.todo.push(child);
                    assert(self.todo@.drop_last() =~= now);
                }
                assert(frames_on(self.todo@) =~= frames_among(left) + frames_on(below));
            }
            proof {
                assert(frame.chunks@.skip(0) =~= frame.chunks@);
                assert(all.skip(k + 1) =~= frames_on(stack).drop_first());
                assert(frames_on(stack).drop_first() =~= frames_among(frame.chunks@) + frames_on(
                    below,
                ));
            }
            if (self.pred)(frame) {
                return Some(frame);
            }
            proof {
                k = k + 1;
            }
        }
        None
    }
}

} // verus!
