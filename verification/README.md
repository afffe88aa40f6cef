# zoom_focus

Where a zoomed-in screen recording should look at each instant.

- `src/` is the verified library. It holds the decisions the interpolator
  makes by order alone: which cursor samples surround an instant
  (`sample`), which zoom segment and which click cluster apply and where
  the raw focus comes from (`search`, `cluster`, `focus`), and how the
  cursor moves of a segment are grouped into clusters, each bounded by a
  box (`cluster::ClusterBuilder`). Times and coordinates enter it as order
  keys (`keys`, see below).
- `app/` holds the interpolator itself: the recording types, the mapping of
  recorded numbers to order keys, and the floating-point geometry, easing and
  camera integration, which call the library for every selection.

The keys come from `keys::key_of_bits`: none for a NaN, otherwise the
sign-magnitude reading of the double's bit pattern (both zeros sharing one
key). Every comparison in the library is made with `keys::at_or_before` and
its kin, which are false whenever either side is a NaN, as float comparisons
are. That the sign-magnitude reading orders non-NaN doubles as they compare
is a fact of the IEEE 754 encoding that nothing in `src/` can state over
doubles; the test `keys_order_as_doubles` checks it on values.
