# listener

Turns recorded speech into training data: scripted reads and Craig recordings of
Discord calls become JSON lines of what one speaker said and what was said before
it. Every capture lands in a staging file first; only what has been looked at is
merged into the master file.

## Layout

- `src/` is the library, verified with Verus. It parses the inbox, decides on
  downloads, finds a speaker's track in an archive, splits recordings into
  utterances, makes training pairs, merges them by their hash, picks the samples
  to look at, and drives the daemon's passes over the inbox.
- `app/` is the command line around it: files, the network, audio decoding,
  transcription, and everything computed in floating point. Under the name
  `listenerd` the program is the daemon, under any other name the corpus tool.
- `tests/` runs the library.

## Conventions

- Paths are text with `/` between their components.
- Single-precision numbers that the library only carries or compares are given by
  their bits.
- What the library takes from other crates stands behind items marked
  `external_body` or `assume_specification`; the comment above each says what is
  claimed of the call.
