# sigtrace

A signature-specialised bitmap-to-vector tracer for low-quality eID scans,
written in Verus. The integer core of the pipeline is a verified library; the
floating-point geometry and the command line stand beside it.

## Layout

- `src/pgm.rs`: binary PGM (P5) reading and writing, with the exact header
  grammar as the contract and the write/read round trip proved.
- `src/contrast.rs`: the contrast rescue for faint ink (histogram, 2%/98%
  levels, the guarded stretch with its f32 rounding modelled exactly).
- `src/components.rs`: despeckling: removal of the 8-connected ink components
  below a size, stated over connectivity; idempotence proved.
- `src/contour.rs`: pixel-edge boundary tracing. The contract describes the
  walks by their start and turn rules; proved laws: every walk closes, and the
  walks take each boundary edge exactly once.
- `src/decimal.rs`: decimal rendering of integers (header and SVG text).
- `src/lib.rs`: threshold, SVG document.
- `app/`: the CLI, the bicubic upscale, the Gaussian blur, the Bezier fitting
  and the pipeline that ties them to the library (all floating point).
