# OpenPocket

Firmware library of a round-AMOLED pocket watch, written and proved in Verus: drivers'
protocols, gesture recognition, wheel physics, the lock scene, the app wheel and its screens,
the water simulation, damage tracking, and the codec of its pre-computed animation.

- `src/` is the library. Every function carries a contract, and properties that relate
  several functions stand beside them as public `lemma_..` proof functions.
  - `imath`, `trig`, `pixel`, `raster`, `font`: arithmetic, colours, canvas, glyph atlases.
  - `display`: dirty-span index, retained canvas, panel bus.
  - `drivers`, `time`: register protocols and wall time.
  - `input`, `motion`, `sheet`, `morph`: touch, wheel physics, the lock sheet, the app morph.
  - `app`, `shell`: idle ladder, routing, touch polling, the decisions of the frame loop.
  - `scenes`: lock scene, wheel, app screens, water. `scenes::lock_damage` and
    `scenes::wheel_damage` show that every changed pixel is flushed.
  - `codec`, `baker`, `prebake`: the animation asset, written and played back.
  - `raidal`, `cloud`, `gradient`, `light_rays`, `upscale`, `clock`: shaders and the plain clock.
- `tests/` runs the library on concrete values.
- `app/` is the program around it: board bring-up, bus transfers, the frame loop, and what
  needs floating point.
