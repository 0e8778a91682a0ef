# Similario

A detector of duplicate videos. It finds identical copies, re-encoded and cropped versions and
sub-clips by comparing visual hashes, and optionally audio fingerprints.

The library in `src/` is written in Verus: what each function does is stated in its contract and
proved. The program in `app/` does what touches the outside: files, processes, threads, the audio
decoder, the transform in floating point and the command line.

## How it works

1. `scan` decides which files are videos, lists each of them once, and says what comes of it.
2. `visual` computes a signature: `config` places the temporal windows and sets the time limit of
   an ffmpeg call, `cropdetect` finds letterbox bars, `extract` makes frames of raw bytes and
   replaces black ones, `dct` lays out the cube that is transformed and turns coefficients into
   the bits of a hash, `hash` holds these bits, and `watchdog` decides which ffmpeg processes are
   killed. `audio` computes and compares fingerprints; `metadata` reads what ffprobe reports.
3. `cache` names and frames the entries of the signature cache, and `entry` lays out the signature
   in an entry.
4. `compare` finds similar files: `buckets` splits them by duration, `pair` compares two
   signatures, and `groups` gathers matches around representatives.
5. `gui` holds what a window shows and what its buttons do. `similario browse` opens that window in
   the terminal.

Times, tolerances, ratios and scores are floating-point numbers, held by their bits in `double` and
`single`. What is done with them is computed on integers of any size (`big`): `float` states of each
operation which number is nearest to the exact result, and proves that it is the one that comes out.
`number` takes spelled numbers apart, and `decimal` finds the double nearest to one.

## What is proved besides the contracts

`compare::laws`, `compare::group_laws` and `compare::copy_laws` state what holds of comparisons and
groups as a whole: that copies are identical and share a group, that a contained clip is found, that
the order of two files makes no difference, that groups are disjoint and hold no chains. Other
modules end with their own laws, such as that of `cache`: a signature that was saved is loaded
again, with all that it holds. `visual::window_laws` shows that no window ends after its video, and
`compare::scores` what rounding leaves of scores.

What the library takes from other crates is declared in small trusted functions next to their use;
their comments say what is believed of them.
