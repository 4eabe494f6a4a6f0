# croco_server

A small HTTP file server that can run PHP scripts, with its request handling
written in Verus and proved against its contracts.

- `src/` is the verified library:
  - `text`: splitting, trimming, lowering and number reading and writing on characters;
  - `fields`: the name-to-value maps of headers and query arguments;
  - `http_client`: reading a request (start line, percent-decoded target, query
    arguments, headers), the `redirect` / `xxx-over` forwarding headers;
  - `response`: content types, byte ranges, response heads;
  - `php_executor`: the command line a PHP script is run with;
  - `dynamic_threading`: the numbering and bookkeeping of client threads;
  - `config`: the listen address and count arguments.
- `app/` is the server itself: sockets, files, processes, threads and signals.
- `tests/` runs the library on concrete requests.
