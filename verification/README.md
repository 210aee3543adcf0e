# nu_plugin_logic

Prolog-style pattern matching and relational search for Nushell, as a
verified library and a thin plugin around it.

- `src/` is the library, verified with Verus. `value` models the data that
  patterns are matched against; `term` and `convert` turn values into
  patterns (including the list forms `&name`, `key:value`, `key: value` and
  `key value`); `unify` matches a pattern against a value and decomposes
  strings; `search` is the lazy depth-first search across several sources;
  `native` filters rows; `store` keeps named fact sets; `commands` decides
  what `solve` and `facts` do.
- `app/` is the Nushell plugin: the plugin protocol, conversion between
  Nushell values and the library's values, and the streams that feed rows
  to the library and send its answers back.
- `tests/` exercises the library on concrete values.

Among the properties proved: every solution of a search is a combination of
rows that all patterns accept, and every such combination is found (when no
structural error stops the search); a successful string decomposition writes
the matched string back out exactly; unification only ever adds bindings, and
a match survives further bindings; searching the same sources in another order
gives as many solutions, paired one to one with solutions binding the same
variables to equal values (for data without floats); a parsed string pattern is the one
canonical sequence of parts that writes out the pattern text; reading a fact
set back gives what was stored.
