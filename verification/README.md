# talkdedsec_visual

A screen colour panel: five sliders are compiled into a per-channel gamma ramp
and written to every attached display. This crate holds the parts of it that
are proved with Verus; the floating-point colour maths, the preview scene, the
settings file and the Windows calls live in `app/`.

| Path | What is in it |
|---|---|
| `src/color.rs` | The ramp type and the linear (identity) ramp |
| `src/engine.rs` | The display engine: probing, pushes, restore, the backoff ladder as a state machine, and its laws |
| `src/engine/sys.rs` | The display backend for platforms without a gamma-ramp API |
| `src/profiles.rs` | The profile store: save by name, delete, import with merge by name, and its laws |
| `src/text.rs` | Trimming and comparing text |
| `src/system.rs` | The toggle-key table and the global hotkey binding |
| `src/system/registry.rs` | Run-at-startup for platforms without a Run key |
| `app/` | The command-line program: transfer curve, presets, preview, settings file, Windows driver and registry |
| `tests/` | Tests of the library on concrete values |
