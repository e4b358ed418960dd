# keryx_pom

The verified core of a Keryx miner: proofs that a miner holds the weights of a model, and the
on-chain requests for inference that it answers.

| Module | What it holds |
| --- | --- |
| `bytes`, `hextext`, `text` | little-endian numbers, hexadecimal, UTF-8, JSON members, decimal |
| `hash`, `mix`, `merkle` | the digests, the mixing of walk states, Merkle trees |
| `index` | the chunks of a model, their tree, and the canonical order of tensors |
| `possession`, `wire` | the walk, its proof, the verifier, mining, and the proof's wire form |
| `payload`, `request`, `intake` | request, response and challenge payloads, JSON requests, the queue |
| `template`, `node` | the request for a block template, and the conversation with the node |
| `gpu`, `split` | what a search on a card is given, and how a model is spread over devices |

The functions of `src/` have contracts that Verus proves. What comes from other crates (the
digests, hexadecimal, JSON, random numbers) and from the standard library (UTF-8) is
called through small functions marked `external_body`: nothing proves these, and each says what is
relied on.
Functions named `law_..` state what holds of the library as a whole.

`tests/` runs the library; `app/` holds what touches files, the network and graphics cards.
