# fastcgi

A client for the FastCGI protocol. The library in `src/` holds the wire
format and the decisions of the `FCGI_GET_VALUES` exchange, each with a
contract proved by Verus:

- `wire`: versions, record types, the eight-byte record header, its padding
  and the compact length encoding of name/value pairs;
- `fcgi`: the get-values request, and the reading of the reply, step by
  step, from the bytes received so far;
- `value_map`: the map of names to values that a reply yields;
- `conn`: the check a connection makes on parameter names;
- `spec`: parameter names that the FastCGI specification defines.

`app/` holds what performs I/O: the asynchronous `FastCGI` stream wrapper,
the blocking connections over TCP and Unix sockets, the stream forms of the
compact length functions, and the error types with their messages.
