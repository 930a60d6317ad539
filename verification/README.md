# cs2_bot

A tick-based aiming and navigation bot for offline sandbox play, with its
decision logic verified in Verus.

- `src/` — the verified library:
  - `detection`: class ids, greedy non-maximum suppression over an overlap
    relation, order-preserving filtering, and target choice (heads first,
    nearest first).
  - `game_loop`: the per-tick controller as a state machine (fire, aim,
    replan, advance, steer), with laws about target priority and path walking.
  - `navmesh`: the bidirectional area graph built from a nav file's links,
    A* search over integer costs (through `pathfinding`), random goal choice
    (through `rand`), and the sampling plan of Catmull-Rom smoothing.
  - `onnx_inference`, `screen_capture`: layout of model outputs and frames.
  - `config`, `input_sim`: configuration sections, defaults, keys.
- `app/` — the program: configuration loading, model inference, screen
  capture, input devices, and all floating-point geometry and filtering
  (vectors, IoU, WindMouse, One-Euro and Kalman filters, portals), which
  Verus does not reason about here.
- `tests/` — tests of the library.
