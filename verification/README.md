# trading_simulator

A deterministic, single-instrument trading simulator, verified with Verus.

* `src/` is the library. Everything in it is integer arithmetic with contracts.
  * `book_model`, `arena`, `book`, `book_laws`: a price-time-priority order book,
    its arena of linked nodes, and what holds of it.
  * `account`, `exchange_model`, `settlement`, `exchange`, `replay`,
    `exchange_laws`: accounts with cash reservation and T+1 sellability, the
    exchange, its daily price band, replay of event logs, and the laws that span
    them (conservation, priority, order independence of replay, ...).
  * `history`: what holds of an exchange after any sequence of calls.
  * `rng`, `bar`: the generator and OHLCV bars.
  * `engine`, `population`: the virtual clock, the agenda, the event log, and
    what every population of agents does with them.
  * `sim`, `hetero`, `rl`, `game`: the agents' decisions and the four markets.
  * `protocol`, `session`: what a client and a game session say to each other.
* `app/` is the program around it: real-valued samplers, clocks and learning,
  JSON, and the WebSocket gateway.
* `tests/` runs the library, alone and driven as `app/` drives it.

Agents sleep and size their orders by real-valued draws. The library hands out
the raw fractions behind those draws and takes back the sleeping times, sizes and
leans they lead to, so a seed still decides everything.
