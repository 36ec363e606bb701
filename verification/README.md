# calvera_books

A central-limit order book: price-time priority, integer ticks, market orders
that fill or cancel. The library is the book and its matching logic; there is no
server, no wire format and no log. Fills go to a consumer that is chosen at the
type level.

```rust
use calvera_books::{OrderBook, Price, Side, VecConsumer};

let mut book = OrderBook::<VecConsumer>::new(1 << 16);
let h = book.add_limit_order(Side::Bid, Price(100), 10)?;
// `None` means that the order was filled completely and nothing rests.
if let Some(handle) = h {
    book.cancel_limit_order(handle)?;
}
```

The functions under `src/` have contracts that Verus proves. What it takes on
trust are the random draws in `dice`, the ends of a `BTreeSet` in `half_book` and
`str::trim` in `types`; each says so in its documentation.

## What is where

| module | what it holds |
|---|---|
| `model` | the mathematical book: levels, what an aggressor takes, what a cancel leaves |
| `laws`, `room` | what follows for every book: conservation, priority, limits, fill-or-kill, no lost slots |
| `arena`, `level`, `half_book`, `two_sided` | slots linked into queues, queues into levels, levels into a side |
| `orderbooks::orderbook_2` | the engine with a slab per side, and the side in the handle |
| `orderbooks::orderbook_legacy` | the engine with one slab for both sides |
| `hmap_book` | the engine that is addressed by the caller's own order ids |
| `api`, `parity` | the surface that workloads are written against; engines in step stay in step |
| `workloads`, `warm`, `steady` | operation streams, warm workloads, and what keeps their books in shape |
| `scenarios`, `dice`, `pacing` | event streams of a market maker, seeded draws, the turns of a profiling run |
| `u64_map` | a 64-bit mixer |

`app/` is the profiling program: `profile_matching <workload> [seconds]`. It
holds what cannot be proved here: the clock, floating-point market models and
memory that is mapped by the operating system.

## What a book promises

- Best price first, oldest first within a price, and no price beyond the limit.
- What an aggressor brings is filled or left over; what rested is filled or
  still rests.
- A handle is never taken for another order's: a cancelled or filled order is
  `OrderNotFound`, until a slot has gone through all its generations.
- If there is no slot for what is left of a limit order, `SlabFull` is reported
  and the trades stand.
- The consumer gets every fill in order and is flushed once at the end of every
  limit and every market order, refused and killed ones included.
- The two engines that mint handles agree: as long as neither refuses one, the
  same operations fill the same orders in both.
