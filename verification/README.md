# oxideav-vp8

A VP8 video codec whose behaviour is stated in contracts and proved with Verus:
a decoder for key and inter frames, an encoder for key frames, temporal
filtering for alternate references, and the IVF container.

## Layout

- `src/` is the verified library. Every function states what it returns.
  - Entropy coding: `range_coder` (the model), `range_encoder`, `bool_encoder`,
    `bool_decoder`, `bit_cost`, `trees`, `tokens`, `token_encoder`, `mb_tokens`.
  - Headers: `frame_tag`, `coded_header`, `frame_header`.
  - Macroblocks: `macroblock`, `modes`, `mv`, `intra`, `inter`, `motion_comp`,
    `neighbors`, `reconstruct`.
  - Transforms and quantizers: `forward_transform`, `inverse_transform`,
    `transform`, `fdct`, `quant`.
  - Loop filter: `edge_filter`, `loop_filter`, `loopfilter`.
  - Whole frames and streams: `decoder`, `stream`, `encoder`, `mb_coder`,
    `mode_picker`, `mode_writer`, `keyframe_encoder`, `arnr`, `ivf`.
  - Laws that span several modules: `round_trip` (a decoder rebuilds exactly
    what the encoder rebuilt), `judge_law`, `reach_law`, `exact_law`, `inverse_law`,
    `fdct_law`, `silent_law`, `still_law`, `flat_law`, `edge_law`, `header_law`,
    `partition_law`; `tiling` holds what they need of planes that are filled
    block by block. The other laws stand beside the functions they speak of;
    their names begin with `law_`.
- `tests/` runs the library on concrete values.
- `app/` connects the library to the oxideav framework: decoder and container
  traits, file input and output, error texts, and the rate-distortion judge of
  the encoder, which needs floating point.

## Choosing modes

The encoder tries every way to predict a part of a macroblock and shows the
candidates to a judge, a function that names one of them. A candidate holds the
squared error that it leaves and the booleans that it costs. What is proved of
the encoder holds for every judge.
