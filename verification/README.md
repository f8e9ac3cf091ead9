# glacier-stream

A command-line tool that streams data to and from an AWS Glacier vault through
stdin and stdout, and computes Glacier's SHA-256 tree hash of a local stream.

The logic is a verified library (`src/`), checked with Verus:

- `util/tree_hash`: the tree hash in several forms: leaves that arrive in any order
  (`TreeHash`), leaves in order (`SequentialTreeHash`), and a part's leaves kept so
  they can be merged after the parts before it (`ReservedTreeHash`, which holds back one
  subtree, and `AlignedTreeHash`, which keeps subtrees that fit wherever the part starts).
- `util/digest`, `util/hexcode`: SHA-256 and hex through the `sha2` and `hex` crates,
  with the mathematical tree hash that the contracts speak of.
- `util/arn`, `util/vault`, `util/tier`, `size`: parsing of ARNs, vault ARNs,
  retrieval tiers and human-readable sizes.
- `cmd/*`: the decisions of the commands: part sizes and ranges, the order in which
  downloaded parts are written and hashed, the collection of out-of-order hashes, and
  the parsing of listed parts. `cmd/parts` proves that downloaded parts of any whole
  number of MiB, arriving in any order, are written out as the archive with its tree
  hash, and that the tree hash over uploaded parts of a power of two MiB is the tree
  hash of the whole archive. Download work is handed out only within `workers` chunks of
  what has been written (`may_hand_out`), which bounds what is held in memory.

`app/` is the program around it: argument handling, the AWS client, the worker tasks
and channels, and reading and writing the streams.
