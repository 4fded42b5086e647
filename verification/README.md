# pawcontrol

Real-time camera effects driven by hand and finger tracking, with the logic
verified in Verus.

Hold both hands up and a quad is drawn between your index and thumb tips, with
an effect inside it. Touch thumb to pinky to cycle to the next effect. Curl your
middle finger to dial its intensity. A long blink of the right eye freezes the
zone in place.

## Layout

| Where | What |
| --- | --- |
| `src/fixed.rs`, `src/vector.rs`, `src/logistic.rs` | fixed-point numbers, vectors, the logistic function |
| `src/similar.rs`, `src/sort.rs` | lengths in similar figures, stable sorting |
| `src/frame.rs` | camera frames and how they are sampled |
| `src/tracking/` | frame -> landmarks: detector decoding, crops, smoothing, following |
| `src/gesture.rs` | landmarks -> events |
| `src/region.rs` | landmarks -> a masked shape |
| `src/effect.rs` | shape -> what to draw inside it |
| `src/app.rs` | one frame of the whole pipeline, and what the keys do |
| `src/camera.rs`, `src/cli.rs`, `src/render.rs`, `src/ui.rs` | the decisions around devices, flags, drawing and the panel |
| `app/` | the program: camera, models, window, GPU and panel |

Numbers are `Fx`: whole multiples of 2^-32, rounded down and held at the ends of
the range. Exact integers keep the sign of a cross product honest, so the convex
hull of four fingertips is unique and does not depend on their order. Angles are
`Heading`s, a cosine and a sine, and no angle is ever computed.

What each function returns is in its `ensures`. What holds across functions is
in the proof functions named `law_*`.

`app/` turns camera buffers and model outputs into `Fx`, runs the models that
the trackers ask for, and hands the results back. It expects the models in
`assets/models/` and the shaders in `assets/shaders/`.

## Adding things

- An effect implements `Effect` and joins `AnyEffect` and `registry()`.
- A gesture implements `GestureDetector`; an engine runs any one detector type,
  so `Detector` lists those that the program uses. Its `emits` says what it
  emits on the last of a run of frames.
- A region implements `RegionSource`. Build quads with `Region::quad`, which
  takes the convex hull of its corners.
