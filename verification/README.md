# zhtta

A small web server whose request handling is a verified Verus library.

- `src/` — the library, verified by Verus:
  - `text.rs`: byte-string search, splitting and decimal digits;
  - `http.rs`: the requested path, file extensions and routing;
  - `path.rs`: joining and normalising paths;
  - `pages.rs`: response headers, the visitor counter page, the "not found"
    page and dynamic pages with `<!--#exec cmd="..."-->` directives;
  - `queue.rs`: the static-file queue, whose priority peers are served first;
  - `cache.rs`: the LRU cache of compressed files (on the `lru` crate);
  - `codec.rs`: compression (on `miniz_oxide`) and UTF-8 checking;
  - `peer.rs`: peer names;
  - `server.rs`: the server as a state machine from events to actions.
- `app/` — the program: arguments, sockets, files, threads and commands. It
  feeds events to `WebServer::run` and carries out the actions it returns.
- `tests/` — tests of the library.
