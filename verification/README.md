# neuroarena

The presentation core of NeuroArena — a window that shows neural networks
learning to play Asteroids — as a Verus library, with the application around it.

- `src/` is the library, every function in it verified by Verus against its
  contract: the control strip's input rules (`appstate`, `ui`), the glyph
  atlas's packer and cache (`atlas`, `text`), the status line's word wrap
  (`panels`), the bloom chain's sizes (`renderer`), the Cohort's record and its
  median (`cohort`), the bookkeeping of the Arena's cosmetic light (`effects`,
  `scene`), the first-error slot and the seed clock (`gpu`), and the deep field
  (`deepfield`), baked bit for bit through `binary32`, IEEE 754 single
  precision carried out on bit patterns with integer arithmetic.
- `tests/` runs the library, including the soft single precision against the
  machine's own.
- `app/` is the application: the window and its event loop (winit), the GPU
  frame graph (wgpu), text shaping (cosmic-text), stroke tessellation (lyon),
  and everything drawn in floating point. It hands every decision above to the
  library and carries out what comes back.
