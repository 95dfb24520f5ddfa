# pool_miner

A client for a mining pool. The server sets a task: a challenge, a range of nonces and a number of
seconds. The miner looks for the nonce whose drillx hash begins with the most zero bits, and
reports it.

- `src/` is the library, verified with Verus: the messages (`wire`, `le`), the task at hand
  (`task`), the course of a round (`round`), what connections and rounds share (`board`), the
  search (`search`), how a server is reached (`connect`, `miner`, `address`), the course of a
  connection (`link`) and of its requests for tasks (`ready`), what the user asks for (`plan`), and
  what they need of the clock (`clock`) and of text (`text`).
- `app/` runs it: network, threads, clock readings and output.
- `tests/` runs the library on concrete values.

What the library takes from other crates without proof stands in the functions that are marked
`external_body` and in the `assume_specification` of `search`. Each says what it relies on.
