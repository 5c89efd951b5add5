# polymarket_bot

Finds arbitrage in binary prediction markets, values the risk of taking it, and
keeps the books of what was traded. The library in `src/` is verified with
Verus: every function states what it returns or changes, and Verus proves it.

All amounts, prices and probabilities are whole millionths (`i64`). Arithmetic
is exact on wider integers, rounded down, and held at the ends of the range.
The projection onto fair prices works in units of 10^-12. The natural logarithm
and the exponential function are handed in by the caller.

| Module | What it holds |
| --- | --- |
| `units`, `text`, `order`, `clock`, `ids`, `json`, `table` | amounts, decimal texts, sorting, time, identifiers, JSON values, records under keys |
| `types` | markets, order books, opportunities, trades, configuration, the bot's state |
| `math` | divergence, projection, mispriced pairs, position sizes |
| `arbitrage` | which markets are worth a trade |
| `risk` | value at risk, daily limit, recommendations, portfolio figures |
| `executor` | decisions on opportunities, orders, settlement |
| `feed` | what the exchange's messages say of the markets |
| `dashboard` | what is shown |
| `*_laws` | what holds of these across functions |

`app/` is the program around the library: the connections, the loops and the
web page. `tests/` runs the library with the outside crates linked.
