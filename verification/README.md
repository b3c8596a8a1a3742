# tenzor_pipe

MP4 (H.264, H.265, AAC-LC) and WAV to synchronized picture and sound tensors in Arrow files:
one row per epoch, each with the picture nearest to the epoch's start and the log-Mel frames of
its sound.

* `src/` is the library. It holds everything that is decided or computed with whole numbers, and
  every function of it is verified with Verus against its contract: reading containers and
  parameter sets, selecting pictures, cutting a clip into chunks for several decoders, checking
  what decoders put out, scheduling, buffering, batching and refusing what is not supported.
  Statements about several functions together are the `law_...` proof functions.
* `app/` is the `tenzor` program around it: files, threads, codecs and floating point.
* `tests/` runs the library on concrete values, with the real parsers linked in.

Calls into other crates stand behind small functions marked `#[verifier::external_body]`; the
comment above each says what is claimed of the call and not proved here.
