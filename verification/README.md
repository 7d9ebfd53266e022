# rsfai

Azimuthal integration of detector images and peak picking, with the decisions proved.

- `src/` is a Verus library. It settles which pixels fall into which bins and with which
  part, in which order contributions are added, how sparse matrices are built, turned
  over and applied, how a frame is corrected, how peaks are found and thinned, and how
  device runs are planned.
- `app/` is ordinary Rust around it: floating-point arithmetic, HDF5 files, OpenCL devices
  and Python bindings.
- `tests/` runs the library on concrete values.

Numbers enter the library as IEEE 754 bit patterns. Where the library only compares them,
it does so by their order (`ieee`, `double`). Where arithmetic is needed, the caller hands
it over as closures, and the contracts say which closure is called on what and in which
order.

| Modules | Subject |
| --- | --- |
| `grid`, `ieee`, `double`, `accumulate` | image geometry, order of numbers, folds |
| `label`, `distance`, `bilinear`, `watershed`, `blob`, `ellipse` | peaks |
| `preproc`, `model` | corrections and error models |
| `boundaries`, `window`, `split`, `edge`, `quad`, `patch`, `pseudo` | pixels and bins |
| `builder`, `sparse`, `integrate`, `rows` | sparse matrices |
| `histogram`, `parallel`, `split_histogram` | histograms |
| `program`, `device`, `launch`, `engine` | device runs |
| `method`, `multigeometry`, `combine`, `array` | options, joined frames, arrays |
