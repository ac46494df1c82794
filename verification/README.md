# http_server

A small HTTP/1.x server whose logic is verified with Verus.

- `src/` is the library. It parses requests (`http_req`), shows them as text
  (`http_req_text`), writes responses (`http_res`, `sink`), and makes the
  decisions of two front ends: an event-driven one (`epoll`, `server`,
  `connections`, `listener`) and one with a thread for each connection
  (`threaded`). `http_req_laws` and `server_laws` state what holds across
  functions, such as that a request which is sent is received as it was.
- `app/` makes the system calls. It hands their results to the library as plain
  values and does what the library answers.
- `tests/` runs the library on concrete values.

What the library takes from elsewhere without proof stands in `text` (UTF-8
decoding of the standard library, decimal digits of `itoa`) and in `epoll` (three
constants of `libc`).
