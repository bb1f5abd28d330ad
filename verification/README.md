# laravel_keys

Finds the strings by which a Laravel project names its parts, and what they name: configuration
keys, environment variables, routes, translations, views, and Eloquent relationships.

The library under `src/` is verified with Verus. It works on text and plain values only:

- `lexer`, `config_keys`, `config_references`: `config('app.name')`, the arrays in `config/*.php`, and
  the references between them; `config_laws` states what holds of all keys that are found.
- `php`, `php_calls`: the syntax tree of PHP source and the calls in it.
- `env_vars`, `route_names`, `trans_keys`, `view_names`: the other kinds of names.
- `eloquent`, `naming`, `completion`: models, their attributes, and the completion of relationships.
- `text`, `search`, `lines`, `location`, `order`, `urls`: what the others are made of.

PHP source is parsed by `mago-syntax`, and URIs are parsed by the `url` crate that `tower-lsp`
provides; the functions that call them, and those that call the standard library where Verus does not
know it, say what they rely on.

`app/` reads files, asks the language server for what it knows, and turns the library's results into
protocol types.

`mago-php-version` and `mago-text-edit` are called nowhere. `mago-syntax` and `mago-reporting` depend on
them without an exact version; they are listed so that they stay at the version of the other `mago`
crates, since later ones do not fit those and need a later compiler.
