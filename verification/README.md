# Pozzo

Pozzo decides whether numbers are lucky. Lucky numbers are what a sieve by position leaves of the odd
numbers: strike every third one, then every seventh of what is left, then every ninth, and so
on, each step given by the next number that is still there.

`src/` is a library whose functions are verified with Verus.

| Module | What it holds |
| --- | --- |
| `lists`, `lucky` | flags, lists, striking every n-th element; the sieve that defines luckiness |
| `bits`, `fenwick` | words as flags; the tree of counts over words |
| `sieve`, `scan` | the sieve: find and clear the number at a place; deleting by scans over all words |
| `families`, `candidates` | the sparse families of numbers and their labelled members |
| `search` | the sieve's factors applied to the candidates, step by step or at once |
| `laws`, `label_laws` | what holds of the whole: verdicts are true, families are complete, counts add up; labels keep their order, repeats change nothing, bounds only filter |
| `text`, `config`, `args`, `sizing` | texts, arguments and the size of the sieve |
| `selftest` | the program's check of itself, proved to pass |

To decide a number `n`, the search follows its place among what is left: it starts at
`(n + 1) / 2`; a factor that divides the place strikes `n`; any other factor `l` up to the place
`r` moves it to `r - r / l`; and a place below the next factor is final, so `n` is lucky. The law
`law_search_verdicts` in `laws` says that these verdicts are right, also for numbers far above
the sieve.

Two functions of the standard library are taken on trust: `u64::count_ones`, and
`Vec::try_reserve_exact` for the memory of the sieve.

`app/` is the program around the library: arguments, threads, progress lines and printing.
`tests/` runs the library.
