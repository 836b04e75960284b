# watershed

Watershed transforms of greyscale images, verified with Verus.

- `src/` is the library. `grid` holds images and canvases as `ndarray` arrays, `flooding`,
  `merging`, `colour_map` and `lakes` are the steps of a transform, `transform` and
  `builder` put them together, and `levels` finds seeds. The laws of the library are in
  `laws`, `rise_laws`, `water_laws` and `lake_laws`.
- `tests/` runs the library on small images.
- `app/` wraps it for `ndarray` views, scales arrays of numbers to grey levels, and plots,
  times and shows the progress of a transform.

What the library takes on trust of `ndarray`, `rayon`, `rand` and the standard library is
stated in `grid`, `random` and `sorted`, above each function that calls them.
