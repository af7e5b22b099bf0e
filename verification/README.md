# cjdns_admin

Protocol logic of the cjdns admin interface, verified with Verus.

- `src/` is the library. `object` and `bencode` hold the messages and their encoding;
  `dispatch` takes incoming messages to pending requests and open streams; `conn` makes
  requests, authenticates them and sets a connection up; `func_list` and `invocation`
  read descriptions of remote functions and calls of them; `config`, `options`, `pipe`
  and `errors` deal with connection parameters and failures; `service` and `node_info`
  answer the messages that a route server gets from its local node.
- `app/` is the command line tool around the library, with the sockets, the tasks and the
  config file, and the service task of a route server.
- `tests/` runs the library.
