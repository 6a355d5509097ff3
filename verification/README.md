# routing

The data chain of a section of a peer-to-peer network, written and proved in Verus.

The nodes of the network have names of 256 bits and form sections, each of which has a prefix and
holds the nodes whose names begin with it. The members of a section vote on events. Those that a
quorum agrees on take effect, one after the other: nodes join and leave, the section changes, splits
and merges, and it learns about its neighbours. The `Chain` of a node keeps track of this, finds out
where messages have to be sent on to, and puts together the sections that vouch for them.

## Layout

* `src/` is the library. Everything in it is verified.
  * `order`, `ordered`, `codes`, `seqs`: byte orders, ordered collections, byte codes, and searching
    and sorting sequences.
  * `xor_name`, `prefix`, `authority`, `id`, `sha3`: names, prefixes, who messages come from and go
    to, identities, and digests.
  * `proof_set`, `section_info`, `network_event`, `candidate`, `message`, `shared_state`: signatures,
    sections, events, the node that is about to join, messages, and the state that the members share.
  * `chain_model`: what a chain says, and what its operations mean.
  * `chain`, `trust`, `delivery`, `text`: the operations of a chain.
  * `approved`: what an approved node does with the blocks of its section's consensus.
  * `name_type`, `public_id`: identities that get their names from others.
  * `event_laws`, `section_laws`, `neighbour_laws`, `trust_laws`, `delivery_laws`: what holds of all
    chains, over any number of operations.
* `tests/` holds the tests.
* `app/` is the ordinary Rust around the library: the loops that poll the consensus, the parsing of
  what comes with its blocks, and the estimate of the size of the network.

## What is taken on trust

Four calls into other crates: the digests of `tiny-keccak` and `sodiumoxide`, the check of a signature
by `sodiumoxide`, and the sort of `itertools`. What is claimed of each stands in its contract, in
`sha3`, `name_type`, `id` and `seqs`.

A `Chain` has a validity condition, `inv`, which `Chain::new` establishes and every operation keeps.
The operations ask for it, and `Chain::lemma_inv` shows what it means for the model of a chain, which
is what the laws ask for.
