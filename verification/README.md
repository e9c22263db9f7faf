# servio

An HTTP server for static files, with live reload while a site is worked on
and a production mode for a finished one.

The library under `src/` holds what the server decides, with its behaviour
stated in contracts and proved by Verus:

- `guard`: what is never served (hidden names, links leading out of the
  served folder);
- `list`, `listing`, `calendar`, `percent`: the file lists, from the order of
  their entries to the HTML of the page, with sizes, UTC times and links;
- `serve`, `version`: the layers around the file service, what browsers may
  keep, and whether a kept copy is still current;
- `refresh`, `watch`: when a change refreshes the browser, which events are
  changes, and how the watch is kept on the served folder;
- `ignore`: which changes never refresh: hidden names, build output,
  editors' scratch files, and the glob patterns given on the command line or
  read from the ignore file;
- `banner`, `settings`: the command line's options and what is said on the
  way up;
- `text`: the text handling the rest is built on.

The program under `app/` reads the command line and the ignore file, binds
the port, runs the HTTP server and the file watcher, and asks the library at
each decision.

The tests under `tests/` run the library on concrete values.
