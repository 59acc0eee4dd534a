# cordis

A verified library for plugin-based applications: the entry tree of a plugin loader, its config
files, patches and expressions, hot reload, and the services around them.

- `src/` is the library. Every function states its contract, and Verus proves it. The exceptions are
  the small functions and declarations that reach `serde_yaml_ng`, `serde_json`, `minijinja` and
  parts of the standard library: Verus takes their contracts as given. Each is marked
  `external_body`, `external_type_specification`, `assume_specification` or `uninterp`, and its
  comment says what it claims.
- `tests/` runs the library on concrete values.
- `app/` is the runtime around it: files, timers, threads, plugin libraries. It performs the actions
  that the library asks for on a core runtime, which it sees through the trait `core::Core`.

| Modules | What they hold |
| --- | --- |
| `text`, `dict`, `names`, `value` | texts, dictionaries, name sets, configuration values |
| `yaml` | the bridge to `serde_yaml_ng` and `serde_json` |
| `options`, `codec`, `config`, `roundtrip` | entry options, their notation, and that it is read back |
| `evaluator`, `expression` | `!expr` expressions, and which of them `minijinja` is asked to run |
| `forest`, `entry`, `tree`, `changes`, `moves`, `reconcile`, `lifecycle`, `laws` | the entry tree |
| `loader`, `mount`, `patches`, `places` | the loader, mounted files and their patches |
| `graph`, `hmr`, `glob`, `reload` | hot reload |
| `so`, `abi`, `bridge` | plugin libraries |
| `console`, `timer`, `list`, `naming`, `random` | smaller services |
