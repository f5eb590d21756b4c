# chat_common

The common part of the clients and servers of a chat network: routing over
drones, cutting messages into fragments, acknowledgements and flooding.

`src/` is the library. Every function has a contract that Verus proves.

- `network`, `packet`: routes, packets and their models.
- `topology`: the graph of known links, in a `petgraph` graph map.
- `cost`: what links cost, on whatever scale the caller measures them.
- `packet_handling/fragment`: cutting a message and putting it together again.
- `packet_handling/routing`: what a node knows, and the best routes by it.
- `packet_handling/model`: what each event makes of the state of a node.
- `packet_handling`, `packet_handlers`, `handling_steps`: the node itself.
- `packet_handling/limits`: whether a node can take what it is given.
- `packet_handling/laws`: what holds across operations.

`app/` runs a node on channels: it receives, asks the library what to do, and
sends. Drop rates become floating-point costs there, and messages are encoded
and decoded there.
