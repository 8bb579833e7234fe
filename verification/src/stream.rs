//! Decoding a stream of frames.
use crate::decoder;
use crate::decoder::{decode_frame_with_state, DecoderState};
use crate::error::Vp8Error;
use crate::frame::Vp8Frame;
use crate::frame_tag;
use crate::frame_tag::parse_header;
use std::collections::VecDeque;
use vstd::prelude::*;

verus! {

/// A decoder and the frames that wait to be taken from it. A frame that is not
/// to be shown changes the decoder's references and is never taken.
pub struct StreamDecoder {
    pub state: DecoderState,
    pub queued: VecDeque<Vp8Frame>,
}

/// `f` shows what is in `data`, at time `pts`.
pub open spec fn frame_of(
    f: Vp8Frame,
    data: Seq<u8>,
    st: decoder::StateModel,
    pts: Option<i64>,
) -> bool {
    &&& f.pts == pts
    &&& decoder::frame_shows(
        (Vp8Frame { pts: None, ..f }),
        decoder::shown(decoder::decoded_picture(data, st)),
    )
}

impl StreamDecoder {
    pub open spec fn wf(&self) -> bool {
        self.state.wf()
    }

    /// A decoder before its first frame.
    pub fn new() -> (s: Self)
        ensures
            s.wf(),
            s.state@ == decoder::fresh_state(),
            s.queued@.len() == 0,
    {
        StreamDecoder { state: DecoderState::new(), queued: VecDeque::new() }
    }

    /// Decodes a frame, and queues it if it is to be shown.
    pub fn send(&mut self, data: &[u8], pts: Option<i64>) -> (r: Result<(), Vp8Error>)
        requires
            old(self).wf(),
        ensures
            final(self).wf(),
            match r {
                Ok(_) => {
                    &&& decoder::decode_fault(data@, old(self).state@) is None
                    &&& final(self).state@ == decoder::next_state(data@, old(self).state@)
                    &&& if frame_tag::parsed(data@).tag.show_frame {
                        &&& final(self).queued@.len() == old(self).queued@.len() + 1
                        &&& final(self).queued@.drop_last() == old(self).queued@
                        &&& frame_of(final(self).queued@.last(), data@, old(self).state@, pts)
                    } else {
                        final(self).queued@ == old(self).queued@
                    }
                },
                Err(e) => {
                    &&& decoder::decode_fault(data@, old(self).state@) is Some
                    &&& e.is_invalid(decoder::decode_fault(data@, old(self).state@)->0)
                    &&& final(self).state@ == decoder::state_after_fault(
                        data@,
                        old(self).state@,
                    )
                    &&& final(self).queued@ == old(self).queued@
                },
            },
    {
        let visible: bool = match parse_header(data) {
            Ok(h) => h.tag.show_frame,
            Err(e) => {
                return Err(e);
            },
        };
        let mut f: Vp8Frame = match decode_frame_with_state(data, &mut self.state) {
            Ok(f) => f,
            Err(e) => {
                return Err(e);
            },
        };
        if visible {
            f.pts = pts;
            self.queued.push_back(f);
            assert(self.queued@.drop_last() =~= old(self).queued@);
        }
        Ok(())
    }

    /// Takes the frame that has waited longest.
    pub fn receive(&mut self) -> (r: Option<Vp8Frame>)
        ensures
            final(self).state == old(self).state,
            match r {
                Some(f) => {
                    &&& old(self).queued@.len() > 0
                    &&& f == old(self).queued@[0]
                    &&& final(self).queued@ == old(self).queued@.skip(1)
                },
                None => old(self).queued@.len() == 0 && final(self).queued@ == old(self).queued@,
            },
    {
        let r: Option<Vp8Frame> = self.queued.pop_front();
        proof {
            if r is Some {
                assert(self.queued@ =~= old(self).queued@.skip(1));
            }
        }
        r
    }

    /// Forgets everything.
    pub fn reset(&mut self)
        ensures
            final(self).wf(),
            final(self).state@ == decoder::fresh_state(),
            final(self).queued@.len() == 0,
    {
        self.state = DecoderState::new();
        self.queued.clear();
    }
}

} // verus!
