# stream_audio

Real-time audio capture with several sources and sinks, verified with
[Verus](https://github.com/verus-lang/verus).

A device callback pushes samples into a ring buffer and never waits. A capture bridge takes
them out in chunks, converts them to the target format, stamps them and watches the signal. A
router hands the chunks to sinks, which may be slow or fail.

## Layout

- `src/` is the library, with its contracts and proofs.
  - `binary64`, `time`, `text`: numbers as the hardware rounds them, spans of time, messages.
  - `chunk`, `config`, `error`, `event`: what passes through the pipeline.
  - `format`: channel and sample rate conversion.
  - `ring`: the two ends of the ring buffer.
  - `pipeline`: reading chunks, gap, flow and quality monitors, the capture bridge, merging of
    several sources, routing and retries.
  - `sink`: WAV recordings.
  - `session`, `builder`: starting, counting and stopping.
  - `source`, `platform`: devices, a mock source, system audio, permissions.
- `tests/` runs the library, with the ring buffer of the `ringbuf` crate behind it.
- `app/` opens devices, writes files and runs the tasks.

## What is proved

Public functions state what they return, and on which inputs. What the clock says is not known to
a proof: functions that read it state what comes of a reading, and that the reading is one of the
time since the monitor, merger or session began. How many samples wait in the ring buffer is not
known either: functions that look at it state what comes of whatever they find there. Which
samples these are is known: both ends of a buffer speak of one stream, what is pushed is put at
the place in the stream that comes next, and what is popped is taken from the place that comes
next. Beside these stand functions that take what was found as an argument and say exactly what
comes of it. Laws that relate several functions are public proof functions named `lemma_...`:
that a finished recording is one with the right header, that chunk borders do not matter to gap
detection, that no more merge windows wait than may, that a shutdown drains what was captured
before the sinks stop, that what is popped from the ring buffer is what was pushed, that a
conversion to a third of the rate keeps every third sample, that a sink gets a chunk exactly
where its route wants it, and others.

## What is trusted

The calls into `ringbuf` (in `ring`), the standard library's clock (in `time`) and the sharing
of reference-counted values (in `source::source_id`).

## Floating point

Lengths and timestamps are computed as IEEE 754 binary64 numbers would give them, with integers.
Sample conversion from and to floating point, decibels and sine waves are in `app/`.
