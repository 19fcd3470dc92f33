# load_balancer

A small TCP load balancer. The library (`src/`) holds its logic, verified
with Verus:

- `control_node`: the controller, which keeps the server nodes under their
  addresses, the load each reports, and the order in which they get
  connections (least loaded first), and picks the node for the next
  connection;
- `server_node`: a server node, the bytes of its connection, and the
  decisions it takes when its connection is polled (reporting its first
  connection to the controller once);
- `read_write`: the buffers of a client connection, split into lines at
  each CR LF, and the answer to the index request;
- `enc_dec`: the JSON message and the frames of its codec;
- `err`: the load balancer's errors and their texts;
- `buf`: the byte buffer of the `bytes` crate, as the library sees it.

`app/` is the program around it: sockets, channels and the tokio runtime.
