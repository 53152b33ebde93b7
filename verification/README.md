# hybrid_stages

A coverage-guided fuzzer gets stuck where a branch needs a particular value. This project holds
the stages that help it along with concolic execution:

- `sympatch` watches which paths the fuzzer takes, and queues test cases of a path that it is
  stuck on;
- `symcc` runs queued or current inputs in a concolic executor, one at a time and each only once,
  and has the inputs that come out evaluated;
- `symextension` solves the constraints that a run left behind a few more times, each time
  excluding the models it already had.

`src/` is a verified library. It decides and computes; it does no I/O. The two stages with outside
work are state machines: each step takes what has happened and returns what to do next.

`app/` performs what the stages ask for (processes, files, the solver, evaluation by the fuzzer),
and sets the fuzzer and the emulator up. `tests/` exercises the library from outside.
