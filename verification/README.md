# PARALLAX

Trading of one event's contracts across prediction markets: a consolidated book, sources that turn
outside facts into probabilities, a pool of their estimates, engines that propose orders, a risk
gate that every order passes, and a simulator that runs all of it over a recording.

The library under `src/` is written in Verus. Each function states in its contract what it returns
and what it changes, and Verus proves it; the laws that span several functions stand beside them as
`law_...` proof functions.

## Layout

- `double` — doubles as bit patterns. Their order is decided here; their arithmetic comes from the
  caller as an `Arithmetic`, and every contract says which operations are done in which order.
- `rounding` — what the laws ask of a floating-point unit: how its results lie to the exact ones.
- `text`, `keyed` — text and small maps.
- `types` — contracts, quotes, orders, positions, estimates, and what makes each of them sound.
- `book` — the consolidated book: the latest quote of each venue, depth, and riskless trades.
- `alpha` — the sources, the pool of their estimates, and how good past forecasts were.
- `strategy` — the engines, what an edge is worth at a size, calibration, and the structure of a
  position.
- `risk` — the risk gate, its limits, and the kill switch.
- `bus` — bounded queues between the parts of the pipeline.
- `sim` — recordings, the backtest, its report, alerts, fee checks, and reconciliation at startup.
- `cli`, `ui`, `cancel_all` — what the programs decide: the demonstration, the recorder, the
  dashboard's answers, and the sweep that cancels every order.

`app/` holds the programs themselves: files, sockets, the clock's ticking, JSON, and the machine's
floating point. Where the library has to wait for the outside it is a machine of steps: it says what
to do, and takes the answer.

`tests/` runs the library on concrete values.
