# pool_oprf

The Pool OPRF (an OT-based oblivious PRF from Learning with Rounding), private
set intersection on top of it, and the statements a server proves to make it
verifiable, as a library verified with Verus.

## Layout

`src/` is the verified library.

| module          | what                                                               |
| --------------- | ------------------------------------------------------------------ |
| `params`        | the parameters, and how they fit together                          |
| `modular`, `round` | arithmetic in Z_q, Z_p, Z_delta, and rounding from Z_q to Z_p   |
| `blake`, `hash` | the BLAKE3 calls, and the random oracle to a matrix over Z_q        |
| `prf`           | the plaintext PRF `F_sk(t, x)`                                     |
| `eval`          | the server's response equations                                    |
| `delta_ot`      | DELTA-choose-1 random OT from binary random OTs                    |
| `preprocessing` | the slot budget, the preprocessing states and messages             |
| `online`        | Request, BlindEval and Finalize, and the proof that they compute the PRF |
| `packing`       | the wire form of a request row                                     |
| `server`, `psi` | the long-lived server, and private set intersection                |
| `statement`, `response`, `key`, `commitment` | the statements of a verifiable server |
| `response_air`, `compress` | trace rows for a proof system, and BLAKE3's compression |

`tests/` runs the library. `app/` is the program around it: the OTs and the
network transport, the command line, and the proof system's circuits.
