# cps_server

A small API gateway, verified with Verus.

- `src/` is the verified library:
  - `text`: characters of strings, the lexicographic order, splitting and joining,
    lower-case hexadecimal, lower-casing;
  - `str_map`: a string-keyed map kept in key order;
  - `api`: request parameters read from `key=value&...` forms, the signature check
    (MD5 of the sorted parameters and a secret), dispatch and answers;
  - `config`: the configuration records and the choice of the configuration file;
  - `cacher`: memoised loading of configurations;
  - `proxy`: the address a request is forwarded to, and the headers passed back.
- `app/` is the server program: HTTP handling with actix-web, reading the
  configuration file with serde_json, and serialising answers.
- `tests/` run the library on concrete inputs.
