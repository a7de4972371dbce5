# etherwhere

`etherwhere` estimates where an Ethernet-connected host is from active round-trip
time measurements. It probes a built-in set of anchors with ICMP echo and TCP
handshakes, reads hints off the names of routers, and reports a posterior centre, a
posterior mode and a confidence radius. It is not GPS: a large confidence radius
means a region, not a point.

## Layout

- `src/` is the library, written in Verus. Every function in it is verified against
  its contract; only `str::to_lowercase` is taken on trust.
- `app/` is the command line around it: arguments, commands, sockets, the cache file,
  and the floating-point steps that the library asks for.
- `tests/` runs the library on concrete inputs.

| modules | what they do |
| --- | --- |
| `double`, `calc`, `ranking`, `text`, `geometry` | numbers, arithmetic, order, text, places |
| `anchors`, `probe`, `ping`, `trace`, `commands`, `rounds` | what is measured, and what commands print |
| `cache` | the lowest times of earlier runs |
| `calibrate` | refining, bias correction, floors and how they age |
| `hints` | what router names tell |
| `fit`, `scores`, `priors`, `cluster`, `search`, `posterior`, `summary`, `solver` | the estimate |
| `report` | the report, line by line |
| `cache_laws`, `geometry_laws`, `hint_laws`, `order_laws`, `route_laws`, `run_laws`, `solver_laws` | what holds across functions |

## Numbers

The library holds a number as its bit pattern. Comparing, choosing and clamping are
done on the patterns and proved. Sums, products and the like are taken one step at a
time by a function that the caller hands in; a contract says what comes out for any
such function that gives the same result for the same step.

## Running

```
etherwhere --count 3 --rounds 2
etherwhere --count 3 --rounds 2 --trace-hints
```

`ping`, `tracepath`, `ip` and `getent` have to be installed. The run leaves a file
`.etherwhere-cache` in the working directory. A time that is taken from that file is
the less certain the older the file is, by one millisecond a day. Anchors without a host are not probed;
they only serve as hubs that router names can point at.
