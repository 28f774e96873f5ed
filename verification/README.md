# hypothesis_fast

The core of a property-based testing engine, written in Verus. A test case is a
sequence of typed choices; strategies turn choices into values; the engine looks for
a test case that fails and shrinks it, step by step, to simpler ones that still fail
the same way.

- `src/` is the verified library. Numbers of any size, random bits and the like come
  from `num-bigint`, `num-integer`, `num-traits` and `rand`, behind functions whose
  contracts say what is relied on. Floats are passed as their bits.
- `tests/` runs the library on concrete values.
- `app/` is the Python module around the library: it holds the Python objects, calls
  what belongs to the user, and does the floating-point arithmetic.

Where to start reading in `src/`:

| what | modules |
| --- | --- |
| choices, their order and their byte format | `ordering`, `floats`, `intervalset`, `choice`, `codec`, `database` |
| one test case | `provider`, `data`, `runner` |
| looking for failures | `tree`, `engine`, `shrinker` |
| strategies and their values | `strategy`, `drawing`, `hosting`, `room`, `reading`, `comparing`, `foreign`, `filters`, `nodes`, `repr`, `walk` |
| making strategies | `combine`, `arguments`, `scalars`, `charmap`, `charset`, `alphabet`, `constructors`, `builds` |
| strategies for types | `types`, `typeres`, `fromtype` |
| tests of state machines | `stateful` |
