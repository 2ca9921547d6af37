# hyperloglog_rs

Verified building blocks of a family of HyperLogLog counters, written in Verus.

The library covers the parts of a counter that decide its exact state:

- `precisions`: the precision and register-width parameters.
- `bitstream`, `bitwriter`, `bitreader`: a most-significant-bit-first bit stream over 64-bit
  words, with fixed-width, unary and Rice codes, and the laws that a code read back where it
  was written gives the written value.
- `broadword`: register-wise maximum and subtraction over packed register words.
- `hyperloglog`: splitting a hash into a register index and a register value; the hash
  itself comes from xxHash64 (`twox-hash`) over the value's native-endian bytes, the only call
  into an outside crate.
- `switch`, `current`: composite hashes (index, register and leftover hash bits), their
  encoding, decoding, downgrading, and sorted hash lists with insertion and lookup.
- `gaps`, `gap_list`, `rank_index`, `gap_insert`: prefix-free (Rice) coded lists of gap hashes,
  their readers, their rank index, and insertion with in-place splicing or rewriting at fewer
  bits per hash.
- `rank_index_insertion`: the law that splicing a hash into a coded list keeps its rank index
  the one of the list, when the list's first hash lies in the first bucket.
- `gap_registers`: the registers that a list of gap hashes stands for.
- `metadata_word`: the fields that a counter holding a hash list keeps in the 64-bit word that
  otherwise carries its harmonic sum, with the laws that a field reads back what was written
  and that writing one field keeps the others.
- `value_list`, `hybrid`, `estimated_union_cardinalities`, `hyperloglog_multiplicities`:
  smaller value lists, counting helpers, and a counter that keeps how many registers hold
  each value, with the joint tallies of two such counters.

Public functions state their results in `ensures` clauses over spec functions on bit
streams, sequences and integers. One result is left open: which of the admissible bit counts
a rewrite of a full gap list settles on beyond the stated bounds (it depends on how far the
reader has buffered ahead of the writer). A rewrite leaves the rank index of the new list; an
in-place insertion leaves the stated update of the old one.
Estimators built on floating point are not part of the library.

`tests/` holds the executable tests.
