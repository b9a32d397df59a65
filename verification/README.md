# xlive_extract

Extracts the channels of a multitrack session recorded on an X-LIVE card
(the `SE_LOG.BIN` session log and the `NNNNNNNN.WAV` take files) into mono
24-bit WAV files, whole, by time span, or between markers.

- `src/` is the verified library (Verus):
  - `words.rs`: little-endian words, read through their hexadecimal text;
  - `log.rs`: the session log (`read_log_file`), the session name field
    (`name_session`) and the session summary (`get_session_info`);
  - `limits.rs`: which takes hold a span (`calc_limits_time`,
    `calc_limits_marker`), how much of each take is read
    (`take_skip`, `calc_take_len`), and the plan of a span, each part
    counted from its own take (`span_plan`, `plan_total`);
  - `wave.rs`: the WAV header (`wave_header`), the chunking of a take
    (`chunk_layout`) and the de-interleaving of a chunk
    (`extract_channel_samples`), with the proof that the chunk size does
    not change what a channel gets.
  - `span.rs`: where each part of a span's plan lies in its take file
    (`part_location`), the samples per channel a span's headers declare
    (`span_samples_per_channel`), and the proof that reading the parts gives
    each channel exactly its samples of the span;
- `app/` is the command line program: argument handling and all file work.
- `tests/` runs the library on concrete values.
