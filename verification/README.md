# glimpse

Two servers find the popular prefixes of the paths that many clients hold, and the sum of the
embeddings that the clients attach, without learning any client's path.

A client splits its contribution into two keys of a distributed point function. Each server
evaluates its keys down the prefix tree. The clients' proofs, hashed into Merkle trees, and the
sketches of their authenticated counts show who follows the rules. The servers compare each
prefix's shared count with a threshold and go on below the prefixes that exceed it.

- `src/` is the library. Verus proves every function against its contract; the few calls into other
  crates stand behind wrappers whose doc comments say what is trusted. Of a random bit nothing can
  be promised: the functions that draw one have a counterpart that takes the drawn word and says
  exactly what it makes of it.
  - `group`, `field`, `emb_cnt`: the groups that values live in.
  - `hash`, `prg`, `random`, `merkle`, `bits`, `bitvector`: hashing, pseudorandomness and bits.
  - `dpf`, `dpf_laws`: keys for point functions on all prefixes, and what a pair of keys promises.
  - `sketch`, `sketch_laws`: authenticated keys and their sketches.
  - `compare`, `compare_laws`: the two-party comparison with a threshold.
  - `collect`, `collect_laws`: a server's state, and what two servers' states promise together.
- `tests/` runs the library.
- `app/` holds the serializable forms of the types that travel between clients and servers.
