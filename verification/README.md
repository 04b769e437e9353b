# dispatch_bench

A benchmark of non-blocking dispatch over a full round trip:

    strategy(N) --submit_q--> orchestrator --gateway_inbox--> gateway(M)
    strategy(N) <--return_q-- orchestrator <--completion_q--- gateway(M)

The two contended handoffs, `submit_q` and `completion_q`, are built with one of
four techniques, which are compared: `std::sync::mpsc`, a bounded
`crossbeam-channel`, a shared `crossbeam` ring, and one ring per producer with a
multiplexing consumer.

`src/` is a library verified with Verus. It holds what every role decides and
computes: the handoffs and the retry of held-back orders, the gateway's due-heap
and delays, the routing of the orchestrator, the schedules and bookkeeping of the
strategies, the latency samples, the configuration file and the summary over
runs. Functions named `law_` state what holds across several of these.

`app/` is the program around it: it reads the configuration, pins and starts the
threads, runs their polling loops and prints the summary. `tests/` runs the
library with the real queues.
