# planetscale-driver (verified core)

A client for the PlanetScale HTTP database API, with its logic verified by
Verus.

- `src/` is the verified library:
  - `querybuilder`: SQL templates with `$0`, `$1`, ... placeholders, escaping
    of bound values, and the generated SQL text;
  - `parser`: reading column values (integers, `bool`, `char`, text) from
    their text form;
  - `response`: splitting the rows of an answer into column texts and
    handing them to a `Deserializer` or a `Parser`;
  - `connection`: credentials, endpoints, the session kept across answers,
    and the stages of a transaction;
  - `structs`: the API messages as plain data;
  - `encoding`, `text`: base64, UTF-8 and character-level helpers.
- `app/` is the asynchronous HTTP side (reqwest, serde JSON forms of the
  messages, the session lock), which sends what the library decides.
- `tests/` runs the library on concrete values.
