# yktrace

The core of a meta-tracing runtime, verified with Verus.

- `src/metatracer.rs`: the phase a control-point location is in (counting, tracing,
  compiling, compiled), its 32-bit encoding, and `ControlPoint`, the state machine that
  decides what one pass of a thread over a location does, with `run_schedule`, any
  interleaving of passes of many threads over one location. Its laws: encoding round trips,
  every compare-and-swap moves the location forward, a busy tracer gives the location back
  unchanged, what one uncontended pass does to each phase, interleaved counting passes lose
  no count and counts never fall, interleaved passes only ever leave valid packs, and a location only
  moves forward except where a busy tracer makes a pass give a count back.
- `src/trace_mapping/`: `MirLoc` and its text; `bytes.rs`, reading unsigned integers in a byte order
  through `byteorder`; `mir_cfg.rs`, the reader of the MIR control-flow-graph section,
  specified by `parse_section` over the section's bytes and found among a binary's sections by
  name (`find_section`, `MirCfg::from_sections`), with the law that every record
  read is found in the result, and everything in the result comes from a record.
- `app/`: what needs the hardware tracer, threads, atomics' orderings, the ELF file and the
  environment: the driver of `ControlPoint`, and loading the section from the running
  binary (`elf` parses the file as it reads it).
