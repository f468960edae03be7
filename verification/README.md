# common

The shared core of a music workstation: the song, the rules by which it is
edited and routed, the indexes that the audio thread reads, and the reading of
project files of every age.

- `src/` is the library. What each function does is stated in its contract, and
  Verus proves that it does. Laws that relate several functions are public proof
  functions whose names begin with `law_`.
- `tests/` holds tests on concrete values.
- `app/` is what surrounds the library: files, shared memory, the forms in which
  values are stored and sent, and the arithmetic on floating point numbers.

Positions in beats are held as the bit patterns of doubles (`Beat`), settings of
devices as those of floats (`Setting`). The library compares them and decides by
that; sums and products of them are computed around it and handed in.
