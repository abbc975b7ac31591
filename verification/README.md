# readyset_core

The decisions of a replica and of the Postgres response writer, verified with Verus.

A replica wraps a domain. It accepts connections, receives packets, hands them to the domain,
acknowledges them, and delivers what the domain sends to other domains. A response writer turns the
outcome of a query into messages to the frontend.

Each of these protocols is a machine: it is told what happened, and says what has to be done next.
The machines are in `src/`, with what they do stated and proved. `app/` holds the asynchronous code
that does what they ask for, over sockets, channels and timers.

- `token`: tokens that tell connections apart
- `connection`: what an incoming connection is, and the packets that it carries
- `receive`: receiving a batch of packets
- `replay`: batching of reader replay requests
- `outboxes`, `outputs`: packets that wait for delivery, and the connections to deliver them over
- `send`: delivering packets
- `replica`: the event loop
- `message`, `response`: messages to the frontend, and writing a response as such messages
