//! What a frame leaves to the frames behind it.
use crate::decoder;
use crate::decoder::StateModel;
use crate::frame_header;
use crate::frame_tag;
use crate::modes::InfoModel;
use crate::motion_comp::RefFrame;
use crate::mv;
use crate::still_law;
use vstd::prelude::*;

verus! {

/// A key frame becomes the picture that every kind of reference holds.
pub proof fn law_key_frame_fills_the_references(buf: Seq<u8>, st: StateModel)
    requires
        frame_tag::is_key(buf),
    ensures
        decoder::next_state(buf, st).refs.last == decoder::decoded_picture(buf, st),
        decoder::next_state(buf, st).refs.golden == decoder::decoded_picture(buf, st),
        decoder::next_state(buf, st).refs.altref == decoder::decoded_picture(buf, st),
{
    reveal(decoder::next_references);
}

/// After an inter frame, a reference that is refreshed holds the picture of
/// that frame. One that is copied holds what the other one held before the
/// frame: the last picture under code 1, and the golden or the alternate one
/// under code 2. Any other reference is as it was.
pub proof fn law_inter_frame_refreshes_what_it_names(buf: Seq<u8>, st: StateModel)
    requires
        !frame_tag::is_key(buf),
    ensures
        ({
            let flags = decoder::frame_header_of(buf, st).0.coded.refresh;
            let new = decoder::decoded_picture(buf, st);
            let after = decoder::next_state(buf, st).refs;
            &&& flags.last == Some(true) ==> after.last == new
            &&& flags.last != Some(true) ==> after.last == st.refs.last
            &&& flags.golden == Some(true) ==> after.golden == new
            &&& flags.golden != Some(true) && flags.copy_to_golden == Some(1u8) ==> after.golden
                == st.refs.last
            &&& flags.golden != Some(true) && flags.copy_to_golden == Some(2u8) ==> after.golden
                == st.refs.altref
            &&& flags.golden != Some(true) && flags.copy_to_golden != Some(1u8)
                && flags.copy_to_golden != Some(2u8) ==> after.golden == st.refs.golden
            &&& flags.alternate == Some(true) ==> after.altref == new
            &&& flags.alternate != Some(true) && flags.copy_to_alternate == Some(1u8)
                ==> after.altref == st.refs.last
            &&& flags.alternate != Some(true) && flags.copy_to_alternate == Some(2u8)
                ==> after.altref == st.refs.golden
            &&& flags.alternate != Some(true) && flags.copy_to_alternate != Some(1u8)
                && flags.copy_to_alternate != Some(2u8) ==> after.altref == st.refs.altref
        }),
{
    reveal(decoder::next_references);
}

/// A frame that keeps its probabilities leaves them to the next one. One that
/// does not leaves those that it started from: the defaults on a key frame,
/// and else what the frame before it left. The filter deltas are kept either
/// way.
pub proof fn law_probabilities_are_kept_or_dropped(buf: Seq<u8>, st: StateModel)
    ensures
        ({
            let h = decoder::frame_header_of(buf, st).0;
            let after = decoder::next_state(buf, st).probs;
            let keeps = h.coded.refresh.entropy;
            let key = frame_tag::is_key(buf);
            let fresh = frame_header::default_probs();
            &&& keeps ==> after.coef == h.probs.coef && after.ymode == h.probs.ymode
                && after.uv_mode == h.probs.uv_mode && after.mv == h.probs.mv
            &&& !keeps && !key ==> after.coef == st.probs.coef && after.ymode == st.probs.ymode
                && after.uv_mode == st.probs.uv_mode && after.mv == st.probs.mv
            &&& !keeps && key ==> after.coef == fresh.coef && after.ymode == fresh.ymode
                && after.uv_mode == fresh.uv_mode && after.mv == fresh.mv
            &&& after.ref_deltas == h.probs.ref_deltas
            &&& after.mode_deltas == h.probs.mode_deltas
        }),
{
    reveal(decoder::next_probs);
}

/// The picture that a frame enters into the references under the name `f`.
pub open spec fn enters(buf: Seq<u8>, st: StateModel, f: RefFrame) -> bool {
    let flags = decoder::frame_header_of(buf, st).0.coded.refresh;
    frame_tag::is_key(buf) || match f {
        RefFrame::Last => flags.last == Some(true),
        RefFrame::Golden => flags.golden == Some(true),
        RefFrame::AltRef => flags.alternate == Some(true),
    }
}

/// A frame that is entered under a name is shown again by a frame that repeats
/// what stands under that name.
pub proof fn law_refreshed_picture_can_be_repeated(
    first: Seq<u8>,
    second: Seq<u8>,
    st: StateModel,
    f: RefFrame,
)
    requires
        enters(first, st, f),
        ({
            let p = decoder::decoded_picture(first, st);
            let mid = decoder::next_state(first, st);
            &&& p.width >= 1
            &&& p.height >= 1
            &&& still_law::covers(p, decoder::blocks_for(p.width), decoder::blocks_for(p.height))
            &&& mid.refs.last.width == p.width
            &&& mid.refs.last.height == p.height
            &&& !frame_tag::is_key(second)
            &&& decoder::frame_header_of(second, mid).0.coded.level == 0
            &&& forall|k: int|
                0 <= k < decoder::frame_infos(second, mid).len() ==> repeats(
                    #[trigger] decoder::frame_infos(second, mid)[k],
                    f,
                )
        }),
    ensures
        decoder::decoded_picture(second, decoder::next_state(first, st))
            == decoder::decoded_picture(first, st),
{
    let p = decoder::decoded_picture(first, st);
    let mid = decoder::next_state(first, st);
    if frame_tag::is_key(first) {
        law_key_frame_fills_the_references(first, st);
    } else {
        law_inter_frame_refreshes_what_it_names(first, st);
    }
    assert forall|k: int| 0 <= k < decoder::frame_infos(second, mid).len() implies
        #[trigger] still_law::still(decoder::frame_infos(second, mid)[k], mid.refs, p) by {
        assert(repeats(decoder::frame_infos(second, mid)[k], f));
    }
    still_law::law_still_frame_repeats_the_picture(second, mid, p);
}

/// A macroblock without residue or motion that is predicted from `f`.
pub open spec fn repeats(info: InfoModel, f: RefFrame) -> bool {
    &&& info.skip
    &&& info.reference == Some(f)
    &&& info.sub_mvs.len() == 16
    &&& forall|k: int| 0 <= k < 16 ==> #[trigger] info.sub_mvs[k] == mv::zero_mv()
}

} // verus!
