# divsufsort

Suffix array construction and substring search, verified with Verus.

The library (`src/`) holds:

* `divsufsort`, `sssort`, `trsort`: Yuta Mori's divsufsort algorithm — the
  type B* suffixes are sorted by substring (`sssort`) and by tandem repeat
  sort (`trsort`), and the order of all other suffixes is induced from them.
  `divsufsort::divsufsort`, `sort_in_place` and `sort` are proved to return
  the suffix array of their input: the two passes do the sorting, their
  result is checked against the definition of a suffix array, and where
  the check fails (which the tests have not seen happen) the suffixes are
  sorted again by direct comparison. What is proved of the
  passes themselves is stated on each function; the proof of the final
  result rests on that check, not on the passes.
* `dc3`: the difference cover construction (DC3) on texts of integers, with
  its stable counting sort `radix_pass`; its result is likewise checked,
  and sorted again by direct comparison where the check fails.
* `sacabase`: the common model of a suffix array, longest-match search over
  it, and the check that an array is the suffix array of a text.
* `sacapart`: suffix arrays of the parts of a text, searched together;
  `from_parts` puts together parts sorted elsewhere (`app/` sorts them on
  rayon's thread pool).
* `lex`: the mathematical model — suffixes, lexicographic order, longest
  common prefixes — and its lemmas.
* `size`: reading sizes such as `64k` from the command line.
* `common`, `crosscheck`: shared types, constants and trace points.

`app/` is the `divsuftest` program (reading files, timing, printing), and
`tests/` holds the tests.
