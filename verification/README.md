# receipt

Plays an oral-history recording while its transcript appears phrase by
phrase on screen and on an EPSON TM-T90II thermal receipt printer.

* `src/` is the verified library (Verus):
  * `transcript` parses transcripts (single- and multi-speaker layouts) into
    numbered phrases;
  * `alignment` builds phrase timelines, proportional to character counts or
    from recognised speech, and picks the upload MIME type;
  * `scheduler` decides, tick by tick, which phrases start during playback;
  * `escpos` and `printer` build the printer's byte stream and choose the USB
    device and endpoint;
  * `session`, `settings`, `whisper_cache` and `audio_processing` hold the
    decisions behind the application's commands;
  * `text` has the character-level helpers they share.
* `app/` is the program around it: audio output, USB transfers, files, the
  speech-recognition API, and the command line.
* `tests/` exercises the library on concrete inputs.
