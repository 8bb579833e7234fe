//! What a steady judge makes of a picture.
use crate::bool_decoder;
use crate::decoder;
use crate::decoder::{PictureModel, StateModel};
use crate::encoder;
use crate::frame::PlanesModel;
use crate::i420::I420Frame;
use crate::keyframe_encoder;
use crate::keyframe_encoder::KeyframeParams;
use crate::macroblock::IntraBmode;
use crate::mode_picker;
use crate::mode_picker::{Candidate, CandidateModel, Decisions, Task};
use crate::round_trip;
use vstd::prelude::*;

verus! {

/// `judge` gives the same answer whenever it is shown the same options.
pub open spec fn steady<F: Fn(&Vec<Vec<Candidate>>) -> usize>(judge: F) -> bool {
    forall|v: Vec<Vec<Candidate>>, w: Vec<Vec<Candidate>>, a: usize, b: usize|
        #![trigger call_ensures(judge, (&v,), a), call_ensures(judge, (&w,), b)]
        mode_picker::option_views(v@) == mode_picker::option_views(w@) && call_ensures(
            judge,
            (&v,),
            a,
        ) && call_ensures(judge, (&w,), b) ==> a == b
}

proof fn lemma_chosen_once<F: Fn(&Vec<Vec<Candidate>>) -> usize>(
    judge: F,
    options: Seq<Seq<CandidateModel>>,
    i: int,
    j: int,
)
    requires
        steady(judge),
        mode_picker::chosen(judge, options, i),
        mode_picker::chosen(judge, options, j),
    ensures
        i == j,
{
    reveal(mode_picker::chosen);
}

proof fn lemma_same_modes<F: Fn(&Vec<Vec<Candidate>>) -> usize>(
    judge: F,
    t: Task,
    a: Seq<IntraBmode>,
    b: Seq<IntraBmode>,
    n: int,
)
    requires
        steady(judge),
        a.len() == b.len(),
        0 <= n <= a.len(),
        mode_picker::modes_chosen(judge, t, a),
        mode_picker::modes_chosen(judge, t, b),
    ensures
        a.take(n) == b.take(n),
    decreases n,
{
    if n > 0 {
        let k = n - 1;
        lemma_same_modes(judge, t, a, b, k);
        lemma_chosen_once(
            judge,
            mode_picker::sub_options(t, a.take(k)),
            a[k].number(),
            b[k].number(),
        );
        assert(a[k] == b[k]);
        assert(a.take(n) =~= a.take(k).push(a[k]));
        assert(b.take(n) =~= b.take(k).push(b[k]));
    } else {
        assert(a.take(0) =~= b.take(0));
    }
}

/// A steady judge decides in one way about a macroblock.
proof fn lemma_decided_once<F: Fn(&Vec<Vec<Candidate>>) -> usize>(
    judge: F,
    t: Task,
    a: Decisions,
    b: Decisions,
)
    requires
        steady(judge),
        mode_picker::decided(judge, t, a),
        mode_picker::decided(judge, t, b),
    ensures
        a == b,
{
    reveal(mode_picker::decided);
    lemma_chosen_once(
        judge,
        mode_picker::whole_options(t),
        a.whole.number(),
        b.whole.number(),
    );
    assert(a.whole == b.whole);
    lemma_same_modes(judge, t, a.modes, b.modes, 16);
    assert(a.modes.take(16) =~= a.modes);
    assert(b.modes.take(16) =~= b.modes);
    lemma_chosen_once(
        judge,
        mode_picker::luma_options(t, a),
        bool_decoder::bit_value(a.own),
        bool_decoder::bit_value(b.own),
    );
    lemma_chosen_once(judge, mode_picker::chroma_options(t), a.uv.number(), b.uv.number());
    assert(a.uv == b.uv);
}

/// A steady judge makes the same choices for a picture every time.
pub proof fn law_steady_choices_are_the_same<F: Fn(&Vec<Vec<Candidate>>) -> usize>(
    judge: F,
    f: I420Frame,
    qi: int,
    a: Seq<Decisions>,
    b: Seq<Decisions>,
)
    requires
        steady(judge),
        a.len() == b.len(),
        keyframe_encoder::all_decided(judge, f, qi, a),
        keyframe_encoder::all_decided(judge, f, qi, b),
    ensures
        a == b,
    decreases a.len(),
{
    if a.len() > 0 {
        law_steady_choices_are_the_same(judge, f, qi, a.drop_last(), b.drop_last());
        lemma_decided_once(
            judge,
            keyframe_encoder::next_task(f, qi, a.drop_last()),
            a.last(),
            b.last(),
        );
        assert(a =~= a.drop_last().push(a.last()));
        assert(b =~= b.drop_last().push(b.last()));
    } else {
        assert(a =~= b);
    }
}

/// No partition but the last has a size beyond the 24 bits that a frame has
/// for it.
pub open spec fn sizes_fit(out: Seq<u8>, f: I420Frame, p: KeyframeParams) -> bool {
    forall|ds: Seq<Decisions>, first: Seq<u8>, parts: Seq<Seq<u8>>, j: int|
        #![trigger keyframe_encoder::is_key_frame(out, f, p, ds, first, parts), parts[j]]
        keyframe_encoder::is_key_frame(out, f, p, ds, first, parts) && 0 <= j < parts.len() - 1
            ==> parts[j].len() < 0x100_0000
}

proof fn lemma_part_within(parts: Seq<Seq<u8>>, n: nat, j: int)
    requires
        0 <= j < n <= parts.len(),
    ensures
        parts[j].len() <= encoder::joined(parts, n).len(),
    decreases n,
{
    if j < n - 1 {
        lemma_part_within(parts, (n - 1) as nat, j);
    }
}

/// The partitions of a frame below 2^24 bytes have sizes that fit.
pub proof fn law_small_frame_has_sizes_that_fit(out: Seq<u8>, f: I420Frame, p: KeyframeParams)
    requires
        out.len() < 0x100_0000,
    ensures
        sizes_fit(out, f, p),
{
    assert forall|ds: Seq<Decisions>, first: Seq<u8>, parts: Seq<Seq<u8>>, j: int|
        #![trigger keyframe_encoder::is_key_frame(out, f, p, ds, first, parts), parts[j]]
        keyframe_encoder::is_key_frame(out, f, p, ds, first, parts) && 0 <= j < parts.len()
            - 1 implies parts[j].len() < 0x100_0000 by {
        lemma_part_within(parts, parts.len(), j);
    }
}

/// A decoder, whatever it decoded before, makes of an encoded picture exactly
/// the planes that the encoder gave back with it.
pub proof fn law_encoded_frame_decodes<F: Fn(&Vec<Vec<Candidate>>) -> usize>(
    judge: F,
    f: I420Frame,
    p: KeyframeParams,
    out: Seq<u8>,
    planes: PlanesModel,
    st: StateModel,
)
    requires
        keyframe_encoder::params_fault(f.width, f.height, p) is None,
        keyframe_encoder::encodes(judge, f, p, out, planes),
        sizes_fit(out, f, p),
    ensures
        decoder::decode_fault(out, st) is None,
        decoder::decoded_picture(out, st) == (PictureModel {
            planes,
            width: f.width as int,
            height: f.height as int,
        }),
{
    let (ds, first, parts) = choose|ds: Seq<Decisions>, first: Seq<u8>, parts: Seq<Seq<u8>>|
        #[trigger]
        keyframe_encoder::is_key_frame(out, f, p, ds, first, parts)
            && keyframe_encoder::all_decided(judge, f, p.y_ac_qi as int, ds) && planes
            == keyframe_encoder::reconstruction(f, p, ds);
    round_trip::law_key_frame_decodes(judge, f, p, ds, first, parts, out, st);
}

/// The number of partitions does not show in the picture: what a steady judge
/// makes of one picture decodes to the same planes, whatever the number.
pub proof fn law_partition_count_does_not_show<F: Fn(&Vec<Vec<Candidate>>) -> usize>(
    judge: F,
    f: I420Frame,
    p: KeyframeParams,
    q: KeyframeParams,
    p_out: Seq<u8>,
    q_out: Seq<u8>,
    st: StateModel,
)
    requires
        steady(judge),
        q == (KeyframeParams { nbr_of_dct_partitions: q.nbr_of_dct_partitions, ..p }),
        keyframe_encoder::params_fault(f.width, f.height, p) is None,
        keyframe_encoder::params_fault(f.width, f.height, q) is None,
        keyframe_encoder::encodes_to(judge, f, p, p_out),
        keyframe_encoder::encodes_to(judge, f, q, q_out),
        sizes_fit(p_out, f, p),
        sizes_fit(q_out, f, q),
    ensures
        decoder::decode_fault(p_out, st) is None,
        decoder::decode_fault(q_out, st) is None,
        decoder::decoded_picture(p_out, st) == decoder::decoded_picture(q_out, st),
{
    let p_planes = choose|planes: PlanesModel| #[trigger]
        keyframe_encoder::encodes(judge, f, p, p_out, planes);
    let q_planes = choose|planes: PlanesModel| #[trigger]
        keyframe_encoder::encodes(judge, f, q, q_out, planes);
    let (a, a_first, a_parts) = choose|ds: Seq<Decisions>, first: Seq<u8>, parts: Seq<Seq<u8>>|
        #[trigger]
        keyframe_encoder::is_key_frame(p_out, f, p, ds, first, parts)
            && keyframe_encoder::all_decided(judge, f, p.y_ac_qi as int, ds) && p_planes
            == keyframe_encoder::reconstruction(f, p, ds);
    let (b, b_first, b_parts) = choose|ds: Seq<Decisions>, first: Seq<u8>, parts: Seq<Seq<u8>>|
        #[trigger]
        keyframe_encoder::is_key_frame(q_out, f, q, ds, first, parts)
            && keyframe_encoder::all_decided(judge, f, q.y_ac_qi as int, ds) && q_planes
            == keyframe_encoder::reconstruction(f, q, ds);
    law_steady_choices_are_the_same(judge, f, p.y_ac_qi as int, a, b);
    round_trip::law_same_choices_decode_alike(
        judge,
        f,
        p,
        q,
        a,
        a_first,
        a_parts,
        p_out,
        b_first,
        b_parts,
        q_out,
        st,
    );
}

} // verus!
