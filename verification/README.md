# ffmpeg-aimd

Video reduction for AiM SmartyCam MP4 recordings. A recording is transcoded with FFmpeg, the
embedded `aimd` telemetry track is carried over into the new file atom by atom, and the telemetry is
written to a `.telemetry` file of its own.

The library in `src/` decides what is done next, input by input and step by step, and does all work
on bytes; it is verified with Verus. The program in `app/` reads and writes files, calls FFmpeg and
does what takes floating-point numbers.

## What is where

| Module | Content |
| --- | --- |
| `bytes`, `atoms`, `kinds` | big-endian integers and the atoms of an MP4 file |
| `track` | the telemetry track: recognising it, its chunks, track IDs |
| `patch`, `splice` | new track IDs and chunk offsets, and the spliced file |
| `retention` | what a spliced file keeps |
| `reread` | what is written into a track or a `moov` atom reads back |
| `moved`, `patched`, `carried` | what `retention` is proved from |
| `error`, `message` | errors, and errors in words |
| `text`, `rational`, `args` | numbers and frame rates in text, and the command line |
| `paths`, `order` | names of files, and the order of paths |
| `encode`, `filter`, `pump`, `device` | encoder, streams, packets, filters, the order of the work, the device |
| `job` | the steps from an input to its output, and the work on all inputs |

## What is proved

- A spliced file holds the telemetry of its source: as many chunks, each with the same bytes
  (`retention::law_telemetry_retained`), in a track that is copied byte for byte but for its ID and
  its chunk offsets (`retention::law_track_copied`).
- The transcoded streams stay as they were (`retention::law_transcoded_kept`,
  `retention::law_tracks_kept`), and the new track has an ID of its own
  (`retention::law_track_ids`, `retention::law_track_id_unused`).
- A new track ID and new chunk offsets read back, with the sizes of the chunks as before
  (`reread::law_id_read_back`, `reread::law_id_listed`, `reread::law_offsets_read_back`), and an
  appended track is the last child of its `moov` atom (`reread::law_track_appended`).
- Output and telemetry file get their names only after every step before succeeded
  (`job::law_reached_by_success`), and a failure leaves no temporary file behind if all of them can
  be removed (`job::law_cleaned_up`).
- The same holds of an extraction without transcoding (`job::law_extract_reached_by_success`,
  `job::law_extract_cleaned_up`).
- Every input is tried, and the count of failures is that of the inputs that failed
  (`job::law_every_input_tried`).
- The software encoder runs only on request (`encode::law_software_on_request`).
- Decoder, filter and encoder are emptied in this order before the output is complete
  (`pump::law_emptied_in_order`), frames are numbered without a gap (`pump::law_frames_numbered`),
  and progress counts decoded frames (`pump::law_decoded_counted`).
- A setting means the same with its value behind an equals sign and in the next argument
  (`args::law_both_forms_alike`, `args::law_resolved_alike`).
- Frame rates are in lowest terms (`rational::law_lowest_terms`), whatever factor their two numbers
  shared (`rational::law_factor_cancels`).

Every public function states exactly what it returns; functions that can fail state each error and
when it comes. The one thing that is believed without proof is what `String::from_utf8_lossy` makes
of an atom type in an error message.
