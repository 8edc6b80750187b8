# ergodic_transport

Markov chain analysis, ergodic theory utilities, budget planning and control,
verified with Verus.

Numbers are binary64 numbers, held by their encodings. Their arithmetic is part
of the library and proved to round to nearest, ties to even, so every contract
says what a result is to the last bit.

| module | holds |
| --- | --- |
| `binary64` | the number format: which number an encoding stands for, which encoding a number rounds to |
| `rounding` | rounding of wide significands |
| `double` | the type `Double` and its operations |
| `order` | how the operations keep sign and order |
| `vector` | sums over vectors |
| `precision` | how far rounded results are from the exact ones |
| `divisor` | divisors and `gcd` |
| `matrix` | `TransitionMatrix` |
| `graph` | reachability, irreducibility and periods |
| `evolution` | power iteration and mixing |
| `measures` | averages, bounds, occupation, Wasserstein distance, control, budgets |
| `random` | the random number generator of the crate `rand` |
| `text` | numbers in messages |
| `chain` | `MarkovChain` |
| `laws` | what holds of the library as a whole |
| `accuracy` | what holds of stationary distributions, margins and sample bounds up to rounding |
| `averages` | what holds of distances and averages up to rounding |
| `transport` | the Wasserstein distance as the least cost of transport |
| `scaling` | what a common factor of two leaves unchanged |

`app/` offers the same operations on machine floating-point numbers.
